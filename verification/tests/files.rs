use kvs::names::{segment_file_name, segment_id, segment_ids};
use kvs::replace::ReplaceStep;
use kvs::Error;

#[test]
fn file_names_are_the_id_and_the_ending() {
    assert_eq!(segment_file_name(0), "0.kv");
    assert_eq!(segment_file_name(7), "7.kv");
    assert_eq!(segment_file_name(10), "10.kv");
    assert_eq!(segment_file_name(1234567890), "1234567890.kv");
    assert_eq!(segment_file_name(usize::MAX), format!("{}.kv", usize::MAX));
}

#[test]
fn ids_are_read_from_file_names() {
    assert_eq!(segment_id("0.kv"), Some(0));
    assert_eq!(segment_id("9.kv"), Some(9));
    assert_eq!(segment_id("10.kv"), Some(10));
    assert_eq!(segment_id("1234567890.kv"), Some(1234567890));
    assert_eq!(segment_id(&format!("{}.kv", usize::MAX)), Some(usize::MAX));
    for id in 0..2000 {
        assert_eq!(segment_id(&segment_file_name(id)), Some(id));
    }
}

#[test]
fn other_names_are_no_segment_files() {
    let others = vec![
        "",
        "kv",
        ".kv",
        "0",
        "0.kvs",
        "0.k",
        "0.KV",
        "00.kv",
        "01.kv",
        "+1.kv",
        "-1.kv",
        " 1.kv",
        "1 .kv",
        "1.kv ",
        "a.kv",
        "1a.kv",
        "a1.kv",
        "1.0.kv",
        "0x10.kv",
        "١.kv",
        "1.kv.bak",
        "18446744073709551616.kv",
        "99999999999999999999999999.kv",
    ];
    for name in others {
        assert_eq!(segment_id(name), None, "{:?}", name);
    }
}

#[test]
fn ids_of_a_directory_come_in_ascending_order() {
    let names: Vec<String> = vec![
        "10.kv", "2.kv", "notes.txt", "0.kv", "1.kv", "02.kv", "2.kv", "11.kv", "x.kv", "3.kv",
    ]
    .into_iter()
    .map(|name| name.to_owned())
    .collect();
    assert_eq!(segment_ids(&names), vec![0, 1, 2, 3, 10, 11]);
    assert_eq!(segment_ids(&Vec::new()), Vec::<usize>::new());
}

fn run(fails: Option<ReplaceStep>, also: Option<ReplaceStep>) -> Vec<ReplaceStep> {
    let mut steps = Vec::new();
    let mut step = ReplaceStep::start();
    while !step.ended() {
        steps.push(step);
        step = step.after(Some(step) != fails && Some(step) != also);
        assert!(steps.len() <= 7);
    }
    steps.push(step);
    steps
}

#[test]
fn a_replacement_that_goes_through() {
    assert_eq!(
        run(None, None),
        vec![
            ReplaceStep::Flush,
            ReplaceStep::Backup,
            ReplaceStep::Clear,
            ReplaceStep::Install,
            ReplaceStep::Reopen,
            ReplaceStep::Done
        ]
    );
}

#[test]
fn a_failure_before_the_first_deletion_ends_the_replacement() {
    assert_eq!(
        run(Some(ReplaceStep::Flush), None),
        vec![ReplaceStep::Flush, ReplaceStep::Failed]
    );
    assert_eq!(
        run(Some(ReplaceStep::Backup), None),
        vec![ReplaceStep::Flush, ReplaceStep::Backup, ReplaceStep::Failed]
    );
}

#[test]
fn a_failure_after_the_backup_is_undone() {
    assert_eq!(
        run(Some(ReplaceStep::Clear), None),
        vec![
            ReplaceStep::Flush,
            ReplaceStep::Backup,
            ReplaceStep::Clear,
            ReplaceStep::Discard,
            ReplaceStep::Restore,
            ReplaceStep::Failed
        ]
    );
    assert_eq!(
        run(Some(ReplaceStep::Install), None),
        vec![
            ReplaceStep::Flush,
            ReplaceStep::Backup,
            ReplaceStep::Clear,
            ReplaceStep::Install,
            ReplaceStep::Discard,
            ReplaceStep::Restore,
            ReplaceStep::Failed
        ]
    );
}

#[test]
fn a_failure_while_undoing_ends_the_replacement() {
    assert_eq!(
        run(Some(ReplaceStep::Install), Some(ReplaceStep::Discard)),
        vec![
            ReplaceStep::Flush,
            ReplaceStep::Backup,
            ReplaceStep::Clear,
            ReplaceStep::Install,
            ReplaceStep::Discard,
            ReplaceStep::Failed
        ]
    );
    assert_eq!(
        run(Some(ReplaceStep::Install), Some(ReplaceStep::Restore)),
        vec![
            ReplaceStep::Flush,
            ReplaceStep::Backup,
            ReplaceStep::Clear,
            ReplaceStep::Install,
            ReplaceStep::Discard,
            ReplaceStep::Restore,
            ReplaceStep::Failed
        ]
    );
}

#[test]
fn a_failure_of_reopening_ends_the_replacement() {
    assert_eq!(
        run(Some(ReplaceStep::Reopen), None),
        vec![
            ReplaceStep::Flush,
            ReplaceStep::Backup,
            ReplaceStep::Clear,
            ReplaceStep::Install,
            ReplaceStep::Reopen,
            ReplaceStep::Failed
        ]
    );
}

#[test]
fn the_ends_stay() {
    assert!(ReplaceStep::Done.ended());
    assert!(ReplaceStep::Failed.ended());
    assert!(!ReplaceStep::Flush.ended());
    assert_eq!(ReplaceStep::Done.after(true), ReplaceStep::Done);
    assert_eq!(ReplaceStep::Done.after(false), ReplaceStep::Done);
    assert_eq!(ReplaceStep::Failed.after(true), ReplaceStep::Failed);
    assert_eq!(ReplaceStep::Failed.after(false), ReplaceStep::Failed);
}

#[test]
fn errors_in_words() {
    assert_eq!(Error::Io.message(), "io error");
    assert_eq!(Error::Serde.message(), "serialize error");
    assert_eq!(Error::KeyNotFound("k".to_owned()).message(), "key not found. key=k");
    assert_eq!(Error::InvalidKey(String::new()).message(), "invalid key. key=");
    assert_eq!(Error::ParseLengthError.message(), "failed parsing db file.");
}
