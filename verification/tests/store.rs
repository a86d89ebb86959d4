use kvs::command::Command;
use kvs::log_file::LogFile;
use kvs::store::{FileStep, IndexedLogFile};
use kvs::{KvStore, KvStoreError};

fn empty_store() -> KvStore {
    KvStore::open(Vec::new()).unwrap()
}

fn text(s: &str) -> String {
    s.to_owned()
}

#[test]
fn set_then_get_returns_the_value() {
    let mut store = empty_store();
    store.set(text("key1"), text("value1")).unwrap();
    assert_eq!(store.get(text("key1")).unwrap(), Some(text("value1")));
}

#[test]
fn get_of_a_key_never_set_is_none() {
    let mut store = empty_store();
    store.set(text("key1"), text("value1")).unwrap();
    assert_eq!(store.get(text("key2")).unwrap(), None);
}

#[test]
fn a_second_set_overwrites_the_first() {
    let mut store = empty_store();
    store.set(text("k"), text("v1")).unwrap();
    store.set(text("k"), text("v2")).unwrap();
    assert_eq!(store.get(text("k")).unwrap(), Some(text("v2")));
}

#[test]
fn a_set_leaves_other_keys_alone() {
    let mut store = empty_store();
    store.set(text("a"), text("1")).unwrap();
    store.set(text("b"), text("2")).unwrap();
    store.set(text("a"), text("3")).unwrap();
    assert_eq!(store.get(text("b")).unwrap(), Some(text("2")));
    assert_eq!(store.get(text("a")).unwrap(), Some(text("3")));
}

#[test]
fn a_removed_key_has_no_value() {
    let mut store = empty_store();
    store.set(text("k"), text("v")).unwrap();
    store.remove(text("k")).unwrap();
    assert_eq!(store.get(text("k")).unwrap(), None);
}

#[test]
fn a_remove_leaves_other_keys_alone() {
    let mut store = empty_store();
    store.set(text("a"), text("1")).unwrap();
    store.set(text("b"), text("2")).unwrap();
    store.remove(text("a")).unwrap();
    assert_eq!(store.get(text("b")).unwrap(), Some(text("2")));
}

#[test]
fn remove_of_an_absent_key_is_key_not_found() {
    let mut store = empty_store();
    assert_eq!(store.remove(text("absent")), Err(KvStoreError::KeyNotFound));
    assert_eq!(store.log().len(), 0);
    assert_eq!(store.num_writes(), 0);
}

#[test]
fn a_removed_key_can_be_set_again() {
    let mut store = empty_store();
    store.set(text("k"), text("v1")).unwrap();
    store.remove(text("k")).unwrap();
    store.set(text("k"), text("v2")).unwrap();
    assert_eq!(store.get(text("k")).unwrap(), Some(text("v2")));
}

#[test]
fn the_index_keeps_a_removed_key_until_compaction() {
    let mut store = empty_store();
    store.set(text("a"), text("1")).unwrap();
    store.set(text("b"), text("2")).unwrap();
    store.remove(text("a")).unwrap();
    assert_eq!(store.index_len(), 2);
    assert_eq!(store.remove(text("a")), Ok(()));
    assert_eq!(store.get(text("a")).unwrap(), None);
    store.compact_log().unwrap();
    assert_eq!(store.remove(text("a")), Err(KvStoreError::KeyNotFound));
}

#[test]
fn the_log_is_the_records_one_after_another() {
    let mut store = empty_store();
    store.set(text("a"), text("1")).unwrap();
    store.set(text("b"), text("2")).unwrap();
    store.remove(text("a")).unwrap();
    let expected: &[u8] =
        b"{\"Set\":{\"k\":\"a\",\"v\":\"1\"}}{\"Set\":{\"k\":\"b\",\"v\":\"2\"}}{\"Remove\":{\"k\":\"a\"}}";
    assert_eq!(store.log().as_slice(), expected);
    assert_eq!(store.num_writes(), 3);
    assert_eq!(store.index_len(), 2);
}

#[test]
fn a_reopened_store_shows_what_was_written() {
    let mut store = empty_store();
    for i in 0..1000 {
        store.set(format!("key-{}", i), format!("value-{}", i)).unwrap();
    }
    let log = store.log().clone();
    drop(store);
    let reopened = KvStore::open(log).unwrap();
    assert_eq!(reopened.get(text("key-500")).unwrap(), Some(text("value-500")));
    assert_eq!(reopened.get(text("key-0")).unwrap(), Some(text("value-0")));
    assert_eq!(reopened.get(text("key-999")).unwrap(), Some(text("value-999")));
    assert_eq!(reopened.get(text("key-1000")).unwrap(), None);
    assert_eq!(reopened.num_writes(), 1000);
    assert_eq!(reopened.index_len(), 1000);
}

#[test]
fn a_reopened_store_remembers_removals_and_overwrites() {
    let mut store = empty_store();
    store.set(text("a"), text("1")).unwrap();
    store.set(text("b"), text("2")).unwrap();
    store.set(text("c"), text("3")).unwrap();
    store.remove(text("a")).unwrap();
    store.set(text("b"), text("4")).unwrap();
    let reopened = KvStore::open(store.log().clone()).unwrap();
    assert_eq!(reopened.get(text("a")).unwrap(), None);
    assert_eq!(reopened.get(text("b")).unwrap(), Some(text("4")));
    assert_eq!(reopened.get(text("c")).unwrap(), Some(text("3")));
    assert_eq!(reopened.num_writes(), store.num_writes());
    assert_eq!(reopened.index_len(), store.index_len());
}

#[test]
fn overwriting_one_key_keeps_the_log_small() {
    let mut store = empty_store();
    let mut largest = 0;
    for i in 0..10000 {
        store.set(text("k"), format!("v{}", i)).unwrap();
        if store.log().len() > largest {
            largest = store.log().len();
        }
        assert!(store.num_writes() <= 2);
    }
    assert!(largest < 100);
    assert_eq!(store.get(text("k")).unwrap(), Some(text("v9999")));
    let reopened = KvStore::open(store.log().clone()).unwrap();
    assert_eq!(reopened.get(text("k")).unwrap(), Some(text("v9999")));
}

#[test]
fn the_third_write_to_one_key_compacts() {
    let mut store = empty_store();
    store.set(text("k"), text("v1")).unwrap();
    assert!(!store.should_compact());
    store.set(text("k"), text("v2")).unwrap();
    assert_eq!(store.num_writes(), 2);
    assert!(!store.should_compact());
    store.set(text("k"), text("v3")).unwrap();
    assert_eq!(store.num_writes(), 1);
    assert_eq!(store.index_len(), 1);
    assert_eq!(store.log().as_slice(), b"{\"Set\":{\"k\":\"k\",\"v\":\"v3\"}}");
}

#[test]
fn should_compact_when_records_exceed_twice_the_keys() {
    let store = KvStore::open(
        b"{\"Set\":{\"k\":\"a\",\"v\":\"1\"}}{\"Set\":{\"k\":\"a\",\"v\":\"2\"}}".to_vec(),
    ).unwrap();
    assert!(!store.should_compact());
    let store = KvStore::open(
        b"{\"Set\":{\"k\":\"a\",\"v\":\"1\"}}{\"Set\":{\"k\":\"a\",\"v\":\"2\"}}{\"Remove\":{\"k\":\"a\"}}"
            .to_vec(),
    ).unwrap();
    assert!(store.should_compact());
    assert_eq!(store.num_writes(), 3);
    assert_eq!(store.index_len(), 1);
}

#[test]
fn compaction_keeps_values_and_drops_the_rest() {
    let mut store = empty_store();
    store.set(text("a"), text("1")).unwrap();
    store.set(text("b"), text("2")).unwrap();
    store.set(text("c"), text("3")).unwrap();
    store.remove(text("a")).unwrap();
    store.set(text("b"), text("4")).unwrap();
    assert_eq!(store.num_writes(), 5);
    store.compact_log().unwrap();
    assert_eq!(store.get(text("a")).unwrap(), None);
    assert_eq!(store.get(text("b")).unwrap(), Some(text("4")));
    assert_eq!(store.get(text("c")).unwrap(), Some(text("3")));
    assert_eq!(store.num_writes(), 2);
    assert_eq!(store.index_len(), 2);
    let expected: &[u8] = b"{\"Set\":{\"k\":\"b\",\"v\":\"4\"}}{\"Set\":{\"k\":\"c\",\"v\":\"3\"}}";
    assert_eq!(store.log().as_slice(), expected);
}

#[test]
fn compaction_of_an_empty_store_is_empty() {
    let mut store = empty_store();
    store.compact_log().unwrap();
    assert_eq!(store.log().len(), 0);
    assert_eq!(store.num_writes(), 0);
    assert_eq!(store.index_len(), 0);
}

#[test]
fn compaction_of_removals_alone_leaves_nothing() {
    let mut store = KvStore::open(
        b"{\"Set\":{\"k\":\"a\",\"v\":\"1\"}}{\"Remove\":{\"k\":\"a\"}}".to_vec(),
    ).unwrap();
    store.compact_log().unwrap();
    assert_eq!(store.log().len(), 0);
    assert_eq!(store.get(text("a")).unwrap(), None);
}

#[test]
fn many_keys_survive_compactions() {
    let mut store = empty_store();
    for round in 0..5 {
        for i in 0..50 {
            store.set(format!("key-{}", i), format!("value-{}-{}", round, i)).unwrap();
        }
    }
    for i in 0..50 {
        assert_eq!(store.get(format!("key-{}", i)).unwrap(), Some(format!("value-4-{}", i)));
    }
    assert_eq!(store.index_len(), 50);
    assert!(store.num_writes() <= 100);
}

#[test]
fn open_refuses_bytes_that_are_no_records() {
    assert!(matches!(
        KvStore::open(b"{\"Set\":{\"k\":\"a\",\"v\":\"1\"}}garbage".to_vec()),
        Err(KvStoreError::DeserializationFailure)
    ));
    assert!(matches!(
        KvStore::open(b"{\"Set\":{\"k\":\"a\",\"v\":\"1\"}".to_vec()),
        Err(KvStoreError::DeserializationFailure)
    ));
    assert!(matches!(
        KvStore::open(b"{\"Get\":\"a\"}".to_vec()),
        Err(KvStoreError::DeserializationFailure)
    ));
}

#[test]
fn open_of_no_bytes_is_an_empty_store() {
    let store = empty_store();
    assert_eq!(store.num_writes(), 0);
    assert_eq!(store.index_len(), 0);
    assert_eq!(store.get(text("a")).unwrap(), None);
}

#[test]
fn strings_with_quotes_and_backslashes_are_kept() {
    let mut store = empty_store();
    let key = text("a \"quoted\" \\ key\n");
    let value = text("}}{\"Remove\":{\"k\":\"x\"}}\\");
    store.set(key.clone(), value.clone()).unwrap();
    store.set(text("x"), text("y")).unwrap();
    assert_eq!(store.get(key.clone()).unwrap(), Some(value.clone()));
    let reopened = KvStore::open(store.log().clone()).unwrap();
    assert_eq!(reopened.get(key).unwrap(), Some(value));
    assert_eq!(reopened.get(text("x")).unwrap(), Some(text("y")));
    assert_eq!(reopened.num_writes(), 2);
}

#[test]
fn strings_beyond_ascii_are_kept() {
    let mut store = empty_store();
    store.set(text("clé"), text("värde ✓ \u{1F600}")).unwrap();
    assert_eq!(store.get(text("clé")).unwrap(), Some(text("värde ✓ \u{1F600}")));
    let reopened = KvStore::open(store.log().clone()).unwrap();
    assert_eq!(reopened.get(text("clé")).unwrap(), Some(text("värde ✓ \u{1F600}")));
}

#[test]
fn empty_strings_are_kept() {
    let mut store = empty_store();
    store.set(text(""), text("")).unwrap();
    assert_eq!(store.get(text("")).unwrap(), Some(text("")));
    assert_eq!(store.log().as_slice(), b"{\"Set\":{\"k\":\"\",\"v\":\"\"}}");
}

#[test]
fn log_file_appends_and_counts() {
    let mut log = LogFile::new(Vec::new());
    assert_eq!(log.position(), 0);
    assert_eq!(log.num_writes(), 0);
    let first = Command::Put { k: text("a"), v: text("1") };
    let second = Command::Remove { k: text("a") };
    assert_eq!(log.write_cmd(&first), Ok(0));
    assert_eq!(log.position(), 25);
    assert_eq!(log.write_cmd(&second), Ok(25));
    assert_eq!(log.position(), 45);
    assert_eq!(log.num_writes(), 2);
    assert_eq!(log.read_cmd(0), Ok(first.clone()));
    assert_eq!(log.read_cmd(25), Ok(second.clone()));
    assert_eq!(log.next_cmd(0), Ok(Some((first, 0, 25))));
    assert_eq!(log.next_cmd(25), Ok(Some((second, 25, 45))));
}

#[test]
fn log_file_fails_to_read_at_or_behind_its_end() {
    let log = LogFile::new(b"{\"Remove\":{\"k\":\"a\"}}".to_vec());
    assert_eq!(log.read_cmd(20), Err(KvStoreError::DeserializationFailure));
    assert_eq!(log.read_cmd(21), Err(KvStoreError::DeserializationFailure));
    assert_eq!(log.read_cmd(1000), Err(KvStoreError::DeserializationFailure));
    let empty = LogFile::new(Vec::new());
    assert_eq!(empty.read_cmd(0), Err(KvStoreError::DeserializationFailure));
    assert_eq!(empty.read_cmd(1000), Err(KvStoreError::DeserializationFailure));
}

#[test]
fn a_scan_of_the_log_is_over_at_its_end() {
    let log = LogFile::new(b"{\"Remove\":{\"k\":\"a\"}}".to_vec());
    assert_eq!(log.next_cmd(20), Ok(None));
    assert_eq!(log.next_cmd(21), Ok(None));
}

#[test]
fn log_file_refuses_bytes_that_are_no_record() {
    let log = LogFile::new(b"{\"Remove\":{\"k\":\"a\"}}".to_vec());
    assert_eq!(log.read_cmd(1), Err(KvStoreError::DeserializationFailure));
    assert_eq!(log.next_cmd(19), Err(KvStoreError::DeserializationFailure));
}

#[test]
fn indexed_log_reads_the_latest_record() {
    let mut log = IndexedLogFile::new(Vec::new()).unwrap();
    log.write(Command::Put { k: text("a"), v: text("1") }).unwrap();
    log.write(Command::Put { k: text("a"), v: text("2") }).unwrap();
    log.write(Command::Remove { k: text("b") }).unwrap();
    assert_eq!(log.read(&text("a")), Ok(Command::Put { k: text("a"), v: text("2") }));
    assert_eq!(log.read(&text("b")), Ok(Command::Remove { k: text("b") }));
    assert_eq!(log.read(&text("c")), Err(KvStoreError::KeyNotFound));
    assert_eq!(log.num_writes(), 3);
    assert_eq!(log.index_len(), 2);
}

#[test]
fn build_index_scans_the_whole_log() {
    let mut log = IndexedLogFile::new(
        b"{\"Set\":{\"k\":\"a\",\"v\":\"1\"}}{\"Set\":{\"k\":\"b\",\"v\":\"2\"}}{\"Set\":{\"k\":\"a\",\"v\":\"3\"}}"
            .to_vec(),
    ).unwrap();
    assert_eq!(log.build_index(), Ok(()));
    assert_eq!(log.num_writes(), 3);
    assert_eq!(log.index_len(), 2);
    assert_eq!(log.read(&text("a")), Ok(Command::Put { k: text("a"), v: text("3") }));
    assert_eq!(log.bytes().len(), 75);
}

#[test]
fn command_key_and_value() {
    let put = Command::Put { k: text("a"), v: text("1") };
    let remove = Command::Remove { k: text("b") };
    assert_eq!(put.key(), text("a"));
    assert_eq!(put.value(), Some(text("1")));
    assert_eq!(remove.key(), text("b"));
    assert_eq!(remove.value(), None);
}

#[test]
fn errors_are_described_in_words() {
    assert_eq!(KvStoreError::KeyNotFound.message(), "Key not found");
    assert_eq!(KvStoreError::GenericFailure.message(), "generic failure");
    assert_eq!(
        KvStoreError::OpenFileFailure { name: text("dir/db") }.message(),
        "failed to open file dir/db"
    );
    assert_eq!(KvStoreError::OpenTmpDirFailure.message(), "failed to open temporary file");
    assert_eq!(KvStoreError::FileMoveFailure.message(), "failed to move file");
    assert_eq!(KvStoreError::FileFlushFailure.message(), "failed to flush file");
    assert_eq!(KvStoreError::SerializationFailure.message(), "failed to serialize input");
    assert_eq!(KvStoreError::DeserializationFailure.message(), "failed to deserialize input");
    assert_eq!(KvStoreError::WriteToFileFailure.message(), "failed to write to file");
    assert_eq!(KvStoreError::SeekFileFailure.message(), "failed to seek file");
    assert_eq!(KvStoreError::PageCache.message(), "page cache failure");
}

#[test]
fn compaction_keeps_the_order_of_first_mention() {
    let mut store = empty_store();
    store.set(text("c"), text("1")).unwrap();
    store.set(text("a"), text("2")).unwrap();
    store.set(text("b"), text("3")).unwrap();
    store.set(text("a"), text("4")).unwrap();
    store.remove(text("c")).unwrap();
    store.set(text("c"), text("5")).unwrap();
    store.remove(text("b")).unwrap();
    store.compact_log().unwrap();
    let expected: &[u8] = b"{\"Set\":{\"k\":\"c\",\"v\":\"5\"}}{\"Set\":{\"k\":\"a\",\"v\":\"4\"}}";
    assert_eq!(store.log().as_slice(), expected);
    assert_eq!(store.num_writes(), 2);
    assert_eq!(store.index_len(), 2);
}

#[test]
fn compaction_of_the_three_record_log_leaves_one_binding() {
    let mut store = KvStore::open(
        b"{\"Set\":{\"k\":\"a\",\"v\":\"1\"}}{\"Set\":{\"k\":\"b\",\"v\":\"2\"}}{\"Remove\":{\"k\":\"a\"}}"
            .to_vec(),
    ).unwrap();
    assert_eq!(store.compact_log(), Ok(()));
    assert_eq!(store.log().as_slice(), b"{\"Set\":{\"k\":\"b\",\"v\":\"2\"}}");
    assert_eq!(store.log().len(), 25);
    assert_eq!(store.num_writes(), 1);
    assert_eq!(store.index_len(), 1);
}

#[test]
fn the_file_step_follows_the_operation() {
    let mut store = empty_store();

    let (len, writes) = (store.log().len(), store.num_writes());
    assert_eq!(store.remove(text("k")), Err(KvStoreError::KeyNotFound));
    assert_eq!(store.file_step(len, writes), FileStep::Unchanged);

    let (len, writes) = (store.log().len(), store.num_writes());
    store.set(text("k"), text("v1")).unwrap();
    assert_eq!(store.file_step(len, writes), FileStep::Append);
    assert_eq!(&store.log()[len..], b"{\"Set\":{\"k\":\"k\",\"v\":\"v1\"}}");

    let (len, writes) = (store.log().len(), store.num_writes());
    store.set(text("k"), text("v2")).unwrap();
    assert_eq!(store.file_step(len, writes), FileStep::Append);

    let (len, writes) = (store.log().len(), store.num_writes());
    store.set(text("k"), text("v3")).unwrap();
    assert_eq!(store.file_step(len, writes), FileStep::Replace);
    assert_eq!(store.log().len(), 26);

    let (len, writes) = (store.log().len(), store.num_writes());
    store.remove(text("k")).unwrap();
    assert_eq!(store.file_step(len, writes), FileStep::Append);

    let (len, writes) = (store.log().len(), store.num_writes());
    assert_eq!(store.get(text("k")), Ok(None));
    assert_eq!(store.file_step(len, writes), FileStep::Unchanged);
}

#[test]
fn a_compaction_to_nothing_is_a_replacement() {
    let mut store = KvStore::open(
        b"{\"Set\":{\"k\":\"a\",\"v\":\"1\"}}{\"Remove\":{\"k\":\"a\"}}".to_vec(),
    ).unwrap();
    let (len, writes) = (store.log().len(), store.num_writes());
    store.compact_log().unwrap();
    assert_eq!(store.file_step(len, writes), FileStep::Replace);
    assert_eq!(store.log().len(), 0);
}

#[test]
fn a_log_with_white_space_between_its_records_is_read() {
    let bytes = b"{\"Set\":{\"k\":\"a\",\"v\":\"1\"}}\n{ \"Set\": { \"k\": \"b\", \"v\": \"2\" } }\n\n{\"Remove\":{\"k\":\"a\"}}\n";
    let mut store = KvStore::open(bytes.to_vec()).unwrap();
    assert_eq!(store.num_writes(), 3);
    assert_eq!(store.index_len(), 2);
    assert_eq!(store.get(text("a")), Ok(None));
    assert_eq!(store.get(text("b")), Ok(Some(text("2"))));
    store.set(text("c"), text("3")).unwrap();
    assert_eq!(store.get(text("c")), Ok(Some(text("3"))));
    assert_eq!(store.get(text("b")), Ok(Some(text("2"))));
    assert_eq!(store.log().len(), bytes.len() + 25);
    let reopened = KvStore::open(store.log().clone()).unwrap();
    assert_eq!(reopened.get(text("c")), Ok(Some(text("3"))));
    assert_eq!(reopened.num_writes(), 4);
    store.compact_log().unwrap();
    assert_eq!(
        store.log().as_slice(),
        b"{\"Set\":{\"k\":\"b\",\"v\":\"2\"}}{\"Set\":{\"k\":\"c\",\"v\":\"3\"}}"
    );
}

#[test]
fn a_log_of_white_space_alone_holds_no_record() {
    let store = KvStore::open(b" \n\t ".to_vec()).unwrap();
    assert_eq!(store.num_writes(), 0);
    assert_eq!(store.index_len(), 0);
}

#[test]
fn a_scan_passes_over_white_space_before_a_record() {
    let log = LogFile::new(b"  {\"Remove\":{\"k\":\"a\"}} ".to_vec());
    assert_eq!(log.next_cmd(0), Ok(Some((Command::Remove { k: text("a") }, 2, 22))));
    assert_eq!(log.next_cmd(22), Ok(None));
    assert_eq!(log.read_cmd(2), Ok(Command::Remove { k: text("a") }));
    assert_eq!(log.read_cmd(0), Err(KvStoreError::DeserializationFailure));
}
