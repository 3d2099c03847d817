use std::collections::BTreeMap;

use kv_store::storage::engine::{CompactOp, FlushOp, WriteOp};
use kv_store::storage::memtable::ValueRecord;
use kv_store::storage::paths::{active_wal_path, is_sstable, sstable_path};
use kv_store::storage::steps::{Action, Step};
use kv_store::storage::table_format::record_span;
use kv_store::storage::{
    BloomFilter, CompactionReport, IoError, IoErrorKind, MemTable, SstableId, SstableMetadata,
    SstableReader, SstableWriter, StorageConfig, StorageEngine, StorageError, StorageStats, Wal,
    WalEntry, WalOp,
};

/// Files in memory. An action on a path that is listed as broken fails.
#[derive(Clone, Debug, Default)]
struct Disk {
    files: BTreeMap<String, Vec<u8>>,
    broken: Vec<String>,
    log: Vec<String>,
}

fn io_error(kind: IoErrorKind, message: &str) -> IoError {
    IoError {
        kind,
        message: message.to_string(),
    }
}

impl Disk {
    fn read(&self, path: &str) -> Result<Vec<u8>, IoError> {
        match self.files.get(path) {
            Some(contents) => Ok(contents.clone()),
            None => Err(io_error(IoErrorKind::NotFound, "no such file")),
        }
    }

    fn perform(&mut self, wal: &str, action: Action) -> Result<Vec<u8>, IoError> {
        let (name, path) = match &action {
            Action::AppendWal { .. } => ("append", wal.to_string()),
            Action::SyncWal => ("sync", wal.to_string()),
            Action::ResetWal => ("reset", wal.to_string()),
            Action::WriteTable { path, .. } => ("write", path.clone()),
            Action::ReadTable { path } => ("read", path.clone()),
            Action::ReadRecord { path, .. } => ("record", path.clone()),
            Action::RemoveFile { path } => ("remove", path.clone()),
        };
        let broken = format!("{name} {path}");
        self.log.push(broken.clone());
        if self.broken.contains(&broken) {
            return Err(io_error(IoErrorKind::Other, "broken disk"));
        }
        match action {
            Action::AppendWal { record } => {
                self.files.entry(path).or_default().extend(record);
                Ok(Vec::new())
            }
            Action::SyncWal => Ok(Vec::new()),
            Action::ResetWal => {
                self.files.insert(path, Vec::new());
                Ok(Vec::new())
            }
            Action::WriteTable { contents, .. } => {
                self.files.insert(path, contents);
                Ok(Vec::new())
            }
            Action::ReadTable { .. } => self.read(&path),
            Action::ReadRecord { offset, .. } => {
                let file = self.read(&path)?;
                let start = (offset as usize).min(file.len());
                let rest = &file[start..];
                let end = match record_span(rest) {
                    Some(span) => (span as usize).min(rest.len()),
                    None => rest.len(),
                };
                Ok(rest[..end].to_vec())
            }
            Action::RemoveFile { .. } => match self.files.remove(&path) {
                Some(_) => Ok(Vec::new()),
                None => Err(io_error(IoErrorKind::NotFound, "no such file")),
            },
        }
    }

    fn tables(&self) -> Vec<String> {
        self.files
            .keys()
            .filter(|path| path.contains("/sstables/") && is_sstable(path))
            .cloned()
            .collect()
    }
}

/// An engine on a disk in memory.
struct Store {
    disk: Disk,
    engine: StorageEngine,
}

fn open_with(config: StorageConfig, disk: Disk) -> Result<Store, StorageError> {
    let mut tables = Vec::new();
    // Files are found in an order of the file system's own.
    for path in disk.tables().iter().rev() {
        tables.push(SstableReader::open(path, &disk.files[path])?);
    }
    let log = disk
        .files
        .get(&active_wal_path(&config.data_dir))
        .cloned()
        .unwrap_or_default();
    let engine = StorageEngine::open(config, tables, &log)?;
    Ok(Store { disk, engine })
}

fn open(disk: Disk) -> Store {
    open_with(StorageConfig::new("data"), disk).expect("open engine")
}

impl Store {
    fn wal(&self) -> String {
        self.engine.wal_path().to_string()
    }

    fn run_write(&mut self, first: Step<WriteOp, ()>) -> Result<(), StorageError> {
        let wal = self.wal();
        let mut step = first;
        loop {
            match step {
                Step::Done(result) => return result,
                Step::Perform(op, action) => {
                    let event = self.disk.perform(&wal, action);
                    step = self.engine.resume_write(op, event);
                }
            }
        }
    }

    fn put(&mut self, key: &str, value: &str) -> Result<(), StorageError> {
        let first = self.engine.put(key.as_bytes(), value.as_bytes());
        self.run_write(first)
    }

    fn delete(&mut self, key: &str) -> Result<(), StorageError> {
        let first = self.engine.delete(key.as_bytes());
        self.run_write(first)
    }

    fn get(&mut self, key: &str) -> Result<Option<Vec<u8>>, StorageError> {
        let wal = self.wal();
        match self.engine.get(key.as_bytes()) {
            Step::Done(result) => result,
            Step::Perform(op, action) => op.finish(self.disk.perform(&wal, action)),
        }
    }

    fn scan_prefix(
        &mut self,
        prefix: &str,
        limit: usize,
    ) -> Result<Vec<(Vec<u8>, Vec<u8>)>, StorageError> {
        let wal = self.wal();
        let mut step = self.engine.scan_prefix(prefix.as_bytes(), limit);
        loop {
            match step {
                Step::Done(result) => return result,
                Step::Perform(op, action) => {
                    let event = self.disk.perform(&wal, action);
                    step = self.engine.resume_scan(op, event);
                }
            }
        }
    }

    fn flush_memtable(&mut self) -> Result<Option<SstableMetadata>, StorageError> {
        let wal = self.wal();
        let mut step: Step<FlushOp, Option<SstableMetadata>> = self.engine.flush_memtable();
        loop {
            match step {
                Step::Done(result) => return result,
                Step::Perform(op, action) => {
                    let event = self.disk.perform(&wal, action);
                    step = self.engine.resume_flush(op, event);
                }
            }
        }
    }

    fn compact_all(&mut self) -> Result<CompactionReport, StorageError> {
        let wal = self.wal();
        let mut step: Step<CompactOp, CompactionReport> = self.engine.compact_all();
        loop {
            match step {
                Step::Done(result) => return result,
                Step::Perform(op, action) => {
                    let event = self.disk.perform(&wal, action);
                    step = self.engine.resume_compaction(op, event);
                }
            }
        }
    }

    fn stats(&self) -> StorageStats {
        self.engine.stats()
    }
}

fn message<T>(result: Result<T, StorageError>) -> String {
    match result {
        Ok(_) => panic!("expected an error"),
        Err(error) => error.message(),
    }
}

fn value(text: &str) -> ValueRecord {
    ValueRecord::Value(text.as_bytes().to_vec())
}

#[test]
fn memtable_put_get_delete() {
    let mut memtable = MemTable::new();

    memtable.put(b"alpha", b"one");
    memtable.put(b"beta", b"two");

    assert_eq!(memtable.get_value(b"alpha"), Some("one".as_bytes()));
    assert_eq!(memtable.get_value(b"beta"), Some("two".as_bytes()));
    assert_eq!(memtable.get_value(b"missing"), None);

    memtable.delete(b"alpha");
    assert_eq!(memtable.get(b"alpha"), Some(&ValueRecord::Tombstone));
    assert_eq!(memtable.get_value(b"alpha"), None);
}

#[test]
fn memtable_scan_prefix_is_sorted_and_limited() {
    let mut memtable = MemTable::new();

    memtable.put(b"user:2", b"b");
    memtable.put(b"order:1", b"ignored");
    memtable.put(b"user:1", b"a");
    memtable.put(b"user:3", b"c");

    let rows = memtable.scan_prefix(b"user:", 2);
    let keys: Vec<_> = rows.into_iter().map(|(key, _)| key).collect();

    assert_eq!(keys, vec![b"user:1".to_vec(), b"user:2".to_vec()]);
}

#[test]
fn wal_recovers_puts_and_deletes_in_order() {
    let mut log = Vec::new();

    Wal::append(&mut log, &WalEntry::put(b"alpha", b"one")).expect("append put");
    Wal::append(&mut log, &WalEntry::delete(b"alpha")).expect("append delete");

    let entries = Wal::recover(&log).expect("recover wal");

    assert_eq!(entries.len(), 2);
    assert_eq!(entries[0], WalEntry::put(b"alpha", b"one"));
    assert_eq!(entries[1].op, WalOp::Delete);
    assert_eq!(entries[1].key, b"alpha".to_vec());
}

#[test]
fn bloom_filter_accepts_inserted_keys_and_rejects_some_missing_key() {
    let mut filter = BloomFilter::new(3);

    filter.insert(b"alpha");
    filter.insert(b"beta");
    filter.insert(b"gamma");

    assert!(filter.might_contain(b"alpha"));
    assert!(filter.might_contain(b"beta"));
    assert!(filter.might_contain(b"gamma"));

    let rejected_key = (0..1_000)
        .map(|index| format!("missing:{index}"))
        .find(|key| !filter.might_contain(key.as_bytes()))
        .expect("expected at least one non-member to be rejected");

    assert!(!filter.might_contain(rejected_key.as_bytes()));
}

#[test]
fn storage_engine_recovers_memtable_from_wal() {
    let disk = {
        let mut store = open(Disk::default());
        store.put("alpha", "one").expect("put alpha");
        store.put("beta", "two").expect("put beta");
        store.delete("alpha").expect("delete alpha");
        store.disk
    };

    let mut store = open(disk);

    assert_eq!(store.get("alpha").expect("get alpha"), None);
    assert_eq!(store.get("beta").expect("get beta"), Some(b"two".to_vec()));
}

#[test]
fn sstable_writer_reader_get_and_scan() {
    let path = "tables/00000000000000000001.sst";
    let entries = vec![
        (b"order:1".to_vec(), ValueRecord::Value(b"ignored".to_vec())),
        (b"user:1".to_vec(), ValueRecord::Value(b"alice".to_vec())),
        (b"user:2".to_vec(), ValueRecord::Value(b"bob".to_vec())),
    ];

    let table = SstableWriter::write(SstableId(1), &entries).expect("write sstable");
    let file = table.contents;
    let reader = SstableReader::open(path, &file).expect("open sstable");

    assert!(reader.has_bloom_filter());
    assert!(reader.might_contain(b"user:1"));

    let rejected_key = (0..1_000)
        .map(|index| format!("missing:{index}"))
        .find(|key| !reader.might_contain(key.as_bytes()))
        .expect("expected Bloom filter to reject at least one non-member");
    assert_eq!(
        reader
            .get(rejected_key.as_bytes(), &file)
            .expect("get rejected key"),
        None
    );

    assert_eq!(
        reader.get(b"user:1", &file).expect("get user:1"),
        Some(ValueRecord::Value(b"alice".to_vec()))
    );
    assert_eq!(reader.get(b"missing", &file).expect("get missing"), None);

    let rows = reader.scan_prefix(b"user:", 10, &file).expect("scan prefix");
    let keys: Vec<_> = rows.into_iter().map(|(key, _)| key).collect();

    assert_eq!(keys, vec![b"user:1".to_vec(), b"user:2".to_vec()]);
}

#[test]
fn storage_engine_flushes_to_sstable_and_recovers() {
    let disk = {
        let mut store = open(Disk::default());
        store.put("alpha", "one").expect("put alpha");
        store.put("beta", "two").expect("put beta");
        let metadata = store.flush_memtable().expect("flush").expect("metadata");

        assert_eq!(metadata.entry_count, 2);
        assert_eq!(store.stats().memtable_entries, 0);
        assert_eq!(store.stats().sstable_count, 1);
        assert_eq!(store.stats().bloom_filter_count, 1);
        store.disk
    };

    let mut store = open(disk);

    assert_eq!(
        store.get("alpha").expect("get alpha"),
        Some(b"one".to_vec())
    );
    assert_eq!(store.get("beta").expect("get beta"), Some(b"two".to_vec()));
    assert_eq!(store.stats().sstable_count, 1);
}

#[test]
fn newest_sstable_tombstone_hides_older_value() {
    let disk = {
        let mut store = open(Disk::default());
        store.put("alpha", "one").expect("put alpha");
        store.flush_memtable().expect("flush value");
        store.delete("alpha").expect("delete alpha");
        store.flush_memtable().expect("flush tombstone");
        store.disk
    };

    let mut store = open(disk);

    assert_eq!(store.get("alpha").expect("get alpha"), None);
    assert_eq!(store.stats().sstable_count, 2);
}

#[test]
fn scan_merges_sstables_and_tombstones() {
    let mut store = open(Disk::default());
    store.put("user:1", "alice").expect("put user 1");
    store.flush_memtable().expect("flush user 1");
    store.put("user:2", "bob").expect("put user 2");
    store.delete("user:1").expect("delete user 1");
    store.flush_memtable().expect("flush user 2");

    let rows = store.scan_prefix("user:", 10).expect("scan users");

    assert_eq!(rows, vec![(b"user:2".to_vec(), b"bob".to_vec())]);
}

#[test]
fn compaction_collapses_sstables_and_drops_old_versions() {
    let disk = {
        let mut store = open(Disk::default());
        store.put("user:1", "alice-v1").expect("put user 1 v1");
        store.flush_memtable().expect("flush user 1 v1");

        store.put("user:1", "alice-v2").expect("put user 1 v2");
        store.put("user:2", "bob").expect("put user 2");
        store.flush_memtable().expect("flush user 1 v2");

        store.delete("user:2").expect("delete user 2");
        store.flush_memtable().expect("flush user 2 tombstone");

        assert_eq!(store.stats().sstable_count, 3);

        let report = store.compact_all().expect("compact");

        assert!(!report.flushed_memtable);
        assert_eq!(report.input_sstables, 3);
        assert_eq!(report.output_sstables, 1);
        assert_eq!(report.input_entries, 4);
        assert_eq!(report.output_entries, 1);
        assert_eq!(report.dropped_entries, 3);
        assert_eq!(store.stats().sstable_count, 1);
        assert_eq!(
            store.get("user:1").expect("get user 1"),
            Some(b"alice-v2".to_vec())
        );
        assert_eq!(store.get("user:2").expect("get user 2"), None);
        store.disk
    };

    assert_eq!(disk.tables().len(), 1);

    let mut store = open(disk);

    assert_eq!(
        store.get("user:1").expect("get user 1"),
        Some(b"alice-v2".to_vec())
    );
    assert_eq!(store.get("user:2").expect("get user 2"), None);
    assert_eq!(store.stats().sstable_count, 1);
}

#[test]
fn compaction_flushes_memtable_first() {
    let mut store = open(Disk::default());

    store.put("alpha", "one").expect("put alpha");
    let report = store.compact_all().expect("compact");

    assert!(report.flushed_memtable);
    assert_eq!(report.input_sstables, 1);
    assert_eq!(report.output_sstables, 1);
    assert_eq!(report.input_entries, 1);
    assert_eq!(report.output_entries, 1);
    assert_eq!(store.stats().memtable_entries, 0);
    assert_eq!(store.stats().sstable_count, 1);
    assert_eq!(
        store.get("alpha").expect("get alpha"),
        Some(b"one".to_vec())
    );
}

// The engine, step by step.

#[test]
fn a_write_is_logged_and_synced_before_it_takes_place() {
    let mut store = open(Disk::default());
    store.put("alpha", "one").expect("put alpha");

    assert_eq!(
        store.disk.log,
        vec!["append data/active.wal", "sync data/active.wal"]
    );
    assert_eq!(store.stats().memtable_entries, 1);
    assert_eq!(store.stats().memtable_bytes, 9);
}

#[test]
fn writes_are_not_synced_when_the_configuration_says_so() {
    let mut config = StorageConfig::new("data");
    config.sync_writes = false;
    let mut store = open_with(config, Disk::default()).expect("open engine");
    store.put("alpha", "one").expect("put alpha");

    assert_eq!(store.disk.log, vec!["append data/active.wal"]);
    assert_eq!(store.get("alpha").expect("get alpha"), Some(b"one".to_vec()));
}

#[test]
fn the_default_configuration() {
    let config = StorageConfig::new("some/dir");
    assert_eq!(config.data_dir, "some/dir");
    assert_eq!(config.memtable_flush_threshold, 64 * 1024 * 1024);
    assert!(config.sync_writes);
}

#[test]
fn reaching_the_threshold_flushes() {
    let mut config = StorageConfig::new("data");
    config.memtable_flush_threshold = 12;
    let mut store = open_with(config, Disk::default()).expect("open engine");

    store.put("a", "one").expect("put a");
    assert_eq!(store.stats().sstable_count, 0);
    assert!(!store.stats().should_flush);
    store.put("b", "two333").expect("put b");

    let stats = store.stats();
    assert_eq!(stats.sstable_count, 1);
    assert_eq!(stats.memtable_entries, 0);
    assert_eq!(stats.memtable_bytes, 0);
    assert_eq!(stats.next_sstable_id, 2);
    assert_eq!(stats.flush_threshold_bytes, 12);
    assert_eq!(store.disk.files["data/active.wal"], Vec::<u8>::new());
    assert_eq!(
        store.disk.tables(),
        vec!["data/sstables/00000000000000000001.sst"]
    );
    assert_eq!(store.get("b").expect("get b"), Some(b"two333".to_vec()));
}

#[test]
fn empty_keys_are_refused() {
    let mut store = open(Disk::default());
    let refusal = "invalid input: keys must not be empty";

    assert_eq!(message(store.put("", "x")), refusal);
    assert_eq!(message(store.delete("")), refusal);
    assert_eq!(message(store.get("")), refusal);
    assert!(store.disk.log.is_empty());
}

#[test]
fn a_failed_append_leaves_the_rows_alone() {
    let mut store = open(Disk::default());
    store.disk.broken.push("append data/active.wal".to_string());

    assert_eq!(message(store.put("alpha", "one")), "I/O error: broken disk");
    assert_eq!(store.stats().memtable_entries, 0);
}

#[test]
fn a_failed_sync_leaves_the_rows_alone() {
    let mut store = open(Disk::default());
    store.disk.broken.push("sync data/active.wal".to_string());

    assert_eq!(message(store.put("alpha", "one")), "I/O error: broken disk");
    assert_eq!(store.stats().memtable_entries, 0);
}

#[test]
fn a_failed_flush_within_a_write_keeps_the_write() {
    let mut config = StorageConfig::new("data");
    config.memtable_flush_threshold = 1;
    let mut store = open_with(config, Disk::default()).expect("open engine");
    store
        .disk
        .broken
        .push("write data/sstables/00000000000000000001.sst".to_string());

    assert_eq!(message(store.put("alpha", "one")), "I/O error: broken disk");
    assert_eq!(store.stats().memtable_entries, 1);
    assert_eq!(store.get("alpha").expect("get alpha"), Some(b"one".to_vec()));
}

#[test]
fn flushing_nothing_does_nothing() {
    let mut store = open(Disk::default());
    assert_eq!(store.flush_memtable().expect("flush"), None);
    assert!(store.disk.log.is_empty());
}

#[test]
fn compacting_nothing_reports_nothing() {
    let mut store = open(Disk::default());
    assert_eq!(store.compact_all().expect("compact"), CompactionReport::empty());
    assert!(store.disk.log.is_empty());
}

#[test]
fn compacting_deleted_keys_leaves_no_table() {
    let mut store = open(Disk::default());
    store.put("alpha", "one").expect("put alpha");
    store.flush_memtable().expect("flush");
    store.delete("alpha").expect("delete alpha");

    let report = store.compact_all().expect("compact");

    assert_eq!(
        report,
        CompactionReport {
            flushed_memtable: true,
            input_sstables: 2,
            output_sstables: 0,
            input_entries: 2,
            output_entries: 0,
            dropped_entries: 2,
        }
    );
    assert!(store.disk.tables().is_empty());
    assert_eq!(store.stats().sstable_count, 0);
    assert_eq!(store.stats().next_sstable_id, 3);
    assert_eq!(store.get("alpha").expect("get alpha"), None);
}

#[test]
fn compaction_removes_the_oldest_table_first() {
    let mut store = open(Disk::default());
    store.put("a", "1").expect("put a");
    store.flush_memtable().expect("flush");
    store.put("b", "2").expect("put b");
    store.flush_memtable().expect("flush");
    store.disk.log.clear();

    store.compact_all().expect("compact");

    assert_eq!(
        store.disk.log,
        vec![
            "read data/sstables/00000000000000000001.sst",
            "read data/sstables/00000000000000000002.sst",
            "write data/sstables/00000000000000000003.sst",
            "read data/sstables/00000000000000000003.sst",
            "remove data/sstables/00000000000000000001.sst",
            "remove data/sstables/00000000000000000002.sst",
        ]
    );
}

#[test]
fn a_table_that_is_gone_already_does_not_stop_a_compaction() {
    let mut store = open(Disk::default());
    store.put("a", "1").expect("put a");
    store.flush_memtable().expect("flush");
    store.put("b", "2").expect("put b");

    let wal = store.wal();
    let mut step = store.engine.compact_all();
    let report = loop {
        match step {
            Step::Done(result) => break result.expect("compact"),
            Step::Perform(op, action) => {
                if let Action::RemoveFile { path } = &action {
                    store.disk.files.remove(path);
                }
                let event = store.disk.perform(&wal, action);
                step = store.engine.resume_compaction(op, event);
            }
        }
    };

    assert_eq!(report.output_sstables, 1);
    assert_eq!(store.get("a").expect("get a"), Some(b"1".to_vec()));
    assert_eq!(store.get("b").expect("get b"), Some(b"2".to_vec()));
}

#[test]
fn a_removal_that_fails_ends_a_compaction_without_tables() {
    let mut store = open(Disk::default());
    store.put("a", "1").expect("put a");
    store.flush_memtable().expect("flush");
    store
        .disk
        .broken
        .push("remove data/sstables/00000000000000000001.sst".to_string());

    assert_eq!(message(store.compact_all()), "I/O error: broken disk");
    assert_eq!(store.stats().sstable_count, 0);
    assert_eq!(store.get("a").expect("get a"), None);

    let mut disk = store.disk;
    disk.broken.clear();
    let mut store = open(disk);
    assert_eq!(store.get("a").expect("get a"), Some(b"1".to_vec()));
}

#[test]
fn a_read_that_fails_leaves_the_tables_of_a_compaction() {
    let mut store = open(Disk::default());
    store.put("a", "1").expect("put a");
    store.flush_memtable().expect("flush");
    store
        .disk
        .broken
        .push("read data/sstables/00000000000000000001.sst".to_string());

    assert_eq!(message(store.compact_all()), "I/O error: broken disk");
    assert_eq!(message(store.scan_prefix("", 10)), "I/O error: broken disk");
    store.disk.broken.clear();
    assert_eq!(store.get("a").expect("get a"), Some(b"1".to_vec()));
}

#[test]
fn a_get_reads_one_record_of_the_newest_table() {
    let mut store = open(Disk::default());
    store.put("a", "old").expect("put a");
    store.flush_memtable().expect("flush");
    store.put("a", "new").expect("put a");
    store.put("b", "2").expect("put b");
    store.flush_memtable().expect("flush");
    store.disk.log.clear();

    assert_eq!(store.get("a").expect("get a"), Some(b"new".to_vec()));
    assert_eq!(
        store.disk.log,
        vec!["record data/sstables/00000000000000000002.sst"]
    );
}

#[test]
fn a_get_of_a_missing_file_fails() {
    let mut store = open(Disk::default());
    store.put("a", "1").expect("put a");
    store.flush_memtable().expect("flush");
    store.disk.files.remove("data/sstables/00000000000000000001.sst");

    assert_eq!(message(store.get("a")), "I/O error: no such file");
    assert_eq!(store.get("zz").expect("get zz"), None);
}

#[test]
fn scans_read_only_tables_with_the_prefix() {
    let mut store = open(Disk::default());
    store.put("order:1", "x").expect("put order");
    store.flush_memtable().expect("flush");
    store.put("user:1", "alice").expect("put user");
    store.flush_memtable().expect("flush");
    store.put("user:2", "bob").expect("put user");
    store.disk.log.clear();

    assert_eq!(
        store.scan_prefix("user:", 10).expect("scan"),
        vec![
            (b"user:1".to_vec(), b"alice".to_vec()),
            (b"user:2".to_vec(), b"bob".to_vec()),
        ]
    );
    assert_eq!(
        store.disk.log,
        vec!["read data/sstables/00000000000000000002.sst"]
    );
    assert_eq!(
        store.scan_prefix("", 2).expect("scan"),
        vec![
            (b"order:1".to_vec(), b"x".to_vec()),
            (b"user:1".to_vec(), b"alice".to_vec()),
        ]
    );
    assert_eq!(store.scan_prefix("user:", 0).expect("scan"), vec![]);
}

#[test]
fn the_limit_of_a_scan_counts_live_rows() {
    let mut store = open(Disk::default());
    store.put("k1", "1").expect("put");
    store.put("k2", "2").expect("put");
    store.put("k3", "3").expect("put");
    store.flush_memtable().expect("flush");
    store.delete("k1").expect("delete");

    assert_eq!(
        store.scan_prefix("k", 1).expect("scan"),
        vec![(b"k2".to_vec(), b"2".to_vec())]
    );
}

#[test]
fn tables_are_numbered_on_from_the_newest() {
    let mut store = open(Disk::default());
    assert_eq!(store.stats().next_sstable_id, 1);
    store.put("a", "1").expect("put a");
    let first = store.flush_memtable().expect("flush").expect("metadata");
    assert_eq!(first.id, SstableId(1));
    assert_eq!(first.smallest_key, b"a".to_vec());
    assert_eq!(first.largest_key, b"a".to_vec());
    store.put("a", "2").expect("put a");
    store.flush_memtable().expect("flush");

    let mut store = open(store.disk);
    assert_eq!(store.stats().next_sstable_id, 3);
    assert_eq!(store.get("a").expect("get a"), Some(b"2".to_vec()));
    assert_eq!(store.engine.total_entries(), Some(2));
}

#[test]
fn a_crash_between_the_table_and_the_log_loses_nothing() {
    let mut store = open(Disk::default());
    store.put("a", "1").expect("put a");
    store.delete("b").expect("delete b");
    let wal = store.wal();
    // Stop before the log is emptied.
    let mut step = store.engine.flush_memtable();
    loop {
        match step {
            Step::Done(_) => panic!("the log was not reached"),
            Step::Perform(_, Action::ResetWal) => break,
            Step::Perform(op, action) => {
                let event = store.disk.perform(&wal, action);
                step = store.engine.resume_flush(op, event);
            }
        }
    }

    let mut store = open(store.disk);
    assert_eq!(store.stats().sstable_count, 1);
    assert_eq!(store.stats().memtable_entries, 2);
    assert_eq!(store.get("a").expect("get a"), Some(b"1".to_vec()));
    assert_eq!(store.get("b").expect("get b"), None);
}

#[test]
fn a_crash_while_tables_are_removed_brings_nothing_back() {
    let mut store = open(Disk::default());
    store.put("gone", "1").expect("put");
    store.put("kept", "1").expect("put");
    store.flush_memtable().expect("flush");
    store.delete("gone").expect("delete");
    store.flush_memtable().expect("flush");
    let wal = store.wal();
    let mut removals = 0;
    let mut step = store.engine.compact_all();
    loop {
        match step {
            Step::Done(_) => panic!("the second removal was not reached"),
            Step::Perform(_, Action::RemoveFile { .. }) if removals == 1 => break,
            Step::Perform(op, action) => {
                if matches!(action, Action::RemoveFile { .. }) {
                    removals += 1;
                }
                let event = store.disk.perform(&wal, action);
                step = store.engine.resume_compaction(op, event);
            }
        }
    }

    let mut store = open(store.disk);
    assert_eq!(store.stats().sstable_count, 2);
    assert_eq!(store.get("gone").expect("get"), None);
    assert_eq!(store.get("kept").expect("get"), Some(b"1".to_vec()));
}

#[test]
fn a_logged_write_survives_a_crash() {
    let mut store = open(Disk::default());
    store.put("a", "1").expect("put a");
    let wal = store.wal();
    // Stop when the record is in the log.
    match store.engine.put(b"b", b"2") {
        Step::Perform(_, action) => store.disk.perform(&wal, action).expect("append"),
        Step::Done(_) => panic!("the log was not reached"),
    };
    assert_eq!(store.get("b").expect("get b"), None);

    let mut store = open(store.disk);
    assert_eq!(store.get("a").expect("get a"), Some(b"1".to_vec()));
    assert_eq!(store.get("b").expect("get b"), Some(b"2".to_vec()));
}

#[test]
fn keys_that_a_filter_rules_out_are_not_read() {
    let mut store = open(Disk::default());
    store.put("alpha", "1").expect("put alpha");
    store.put("omega", "2").expect("put omega");
    store.flush_memtable().expect("flush");
    store.disk.log.clear();

    for index in 0..100 {
        let key = format!("missing:{index}");
        assert_eq!(store.get(&key).expect("get"), None);
    }
    assert!(store.disk.log.is_empty());
}

#[test]
fn table_files_do_not_change() {
    let mut store = open(Disk::default());
    store.put("a", "1").expect("put a");
    store.flush_memtable().expect("flush");
    let path = "data/sstables/00000000000000000001.sst";
    let before = store.disk.files[path].clone();

    store.put("a", "2").expect("put a");
    store.delete("a").expect("delete a");
    store.flush_memtable().expect("flush");

    assert_eq!(store.disk.files[path], before);
    assert_eq!(store.stats().sstable_count, 2);
}

#[test]
fn a_scan_gives_what_lookups_find() {
    let mut store = open(Disk::default());
    for index in 0..20 {
        store.put(&format!("k{index}"), &format!("v{index}")).expect("put");
        if index % 5 == 4 {
            store.flush_memtable().expect("flush");
        }
        if index % 3 == 0 {
            store.delete(&format!("k{index}")).expect("delete");
        }
    }
    let rows = store.scan_prefix("k1", 100).expect("scan");
    let mut expected = Vec::new();
    for index in 0..20 {
        let key = format!("k{index}");
        if key.starts_with("k1") {
            if let Some(found) = store.get(&key).expect("get") {
                expected.push((key.into_bytes(), found));
            }
        }
    }
    expected.sort();
    assert_eq!(rows, expected);
    assert_eq!(rows.len(), 8);
}

/// A store with two tables, rows in memory, and deleted keys in all of them.
fn mixed() -> Store {
    let mut store = open(Disk::default());
    for (index, key) in ["a", "b", "c", "d", "e", "f"].iter().enumerate() {
        store.put(key, &format!("v{index}")).expect("put");
    }
    store.flush_memtable().expect("flush");
    store.delete("a").expect("delete a");
    store.put("b", "new").expect("put b");
    store.flush_memtable().expect("flush");
    store.delete("c").expect("delete c");
    store.put("ab", "fresh").expect("put ab");
    store
}

fn answers(store: &mut Store) -> Vec<Option<Vec<u8>>> {
    ["a", "ab", "b", "c", "d", "e", "f", "g"]
        .iter()
        .map(|key| store.get(key).expect("get"))
        .collect()
}

#[test]
fn flushing_changes_no_answer() {
    let mut store = mixed();
    let before = answers(&mut store);
    let rows = store.scan_prefix("", 100).expect("scan");
    let some = store.scan_prefix("a", 1).expect("scan");
    let stats = store.stats();
    let metadata = store.flush_memtable().expect("flush").expect("table");
    assert_eq!(metadata.id, SstableId(3));
    assert_eq!(metadata.entry_count, 2);
    let after = store.stats();
    assert_eq!(after.memtable_entries, 0);
    assert_eq!(after.memtable_bytes, 0);
    assert_eq!(after.sstable_count, stats.sstable_count + 1);
    assert_eq!(after.next_sstable_id, stats.next_sstable_id + 1);
    assert!(store.disk.files["data/active.wal"].is_empty());
    assert_eq!(answers(&mut store), before);
    assert_eq!(store.scan_prefix("", 100).expect("scan"), rows);
    assert_eq!(store.scan_prefix("a", 1).expect("scan"), some);
}

#[test]
fn compaction_changes_no_answer() {
    let mut store = mixed();
    let before = answers(&mut store);
    let rows = store.scan_prefix("", 100).expect("scan");
    let report = store.compact_all().expect("compact");
    assert_eq!(
        report,
        CompactionReport {
            flushed_memtable: true,
            input_sstables: 3,
            output_sstables: 1,
            input_entries: 10,
            output_entries: 5,
            dropped_entries: 5,
        }
    );
    assert_eq!(rows.len(), 5);
    assert_eq!(answers(&mut store), before);
    assert_eq!(store.scan_prefix("", 100).expect("scan"), rows);

    let mut again = open(store.disk);
    assert_eq!(answers(&mut again), before);
    assert_eq!(again.scan_prefix("", 100).expect("scan"), rows);
}

#[test]
fn a_second_compaction_drops_nothing() {
    let mut store = mixed();
    let first = store.compact_all().expect("compact");
    let second = store.compact_all().expect("compact again");
    assert_eq!(
        second,
        CompactionReport {
            flushed_memtable: false,
            input_sstables: first.output_sstables,
            output_sstables: first.output_sstables,
            input_entries: first.output_entries,
            output_entries: first.output_entries,
            dropped_entries: 0,
        }
    );
}

#[test]
fn a_deleted_key_stays_deleted_until_it_is_put() {
    let mut store = open(Disk::default());
    store.delete("never").expect("delete never");
    store.put("k", "1").expect("put");
    store.flush_memtable().expect("flush");
    store.delete("k").expect("delete");
    assert_eq!(store.get("k").expect("get"), None);
    store.flush_memtable().expect("flush");
    assert_eq!(store.get("k").expect("get"), None);
    let mut store = open(store.disk);
    assert_eq!(store.get("k").expect("get"), None);
    store.compact_all().expect("compact");
    assert_eq!(store.get("k").expect("get"), None);
    assert_eq!(store.get("never").expect("get"), None);
    let mut store = open(store.disk);
    assert_eq!(store.get("k").expect("get"), None);
    store.put("k", "2").expect("put again");
    assert_eq!(store.get("k").expect("get"), Some(b"2".to_vec()));
}

#[test]
fn lookups_give_the_last_write() {
    let mut store = open(Disk::default());
    for round in 0..40 {
        let key = format!("k{}", round % 7);
        if round % 5 == 3 {
            store.delete(&key).expect("delete");
            assert_eq!(store.get(&key).expect("get"), None);
        } else {
            let text = format!("v{round}");
            store.put(&key, &text).expect("put");
            assert_eq!(store.get(&key).expect("get"), Some(text.into_bytes()));
        }
        match round % 6 {
            1 => {
                store.flush_memtable().expect("flush");
            }
            3 => {
                store.compact_all().expect("compact");
            }
            5 => store = open(store.disk),
            _ => {}
        }
    }
    let mut expected: Vec<Option<Vec<u8>>> = vec![None; 7];
    for round in 0..40 {
        expected[round % 7] = if round % 5 == 3 {
            None
        } else {
            Some(format!("v{round}").into_bytes())
        };
    }
    for (index, last) in expected.iter().enumerate() {
        assert_eq!(&store.get(&format!("k{index}")).expect("get"), last);
    }
}

#[test]
fn a_record_that_recovery_refuses_is_no_loss_once_it_is_flushed() {
    let long = vec![b'x'; 128 * 1024 * 1024];
    let mut config = StorageConfig::new("data");
    config.memtable_flush_threshold = 2 * long.len();
    let mut store = open_with(config.clone(), Disk::default()).expect("open");
    store.delete("gone").expect("delete");
    let first = store.engine.put(b"long", &long);
    store.run_write(first).expect("put long");
    let disk = store.disk.clone();
    assert_eq!(
        message(open_with(config.clone(), disk).map(|_| ())),
        "corrupt WAL: record length 134217741 exceeds max 134217728"
    );
    store.flush_memtable().expect("flush");
    let mut again = open_with(config, store.disk).expect("open again");
    assert!(again.get("long").expect("get long") == Some(long));
    assert_eq!(again.get("gone").expect("get gone"), None);
    assert_eq!(again.stats().sstable_count, 1);
}

#[test]
fn a_long_write_that_flushes_leaves_an_empty_log() {
    let long = vec![b'x'; 128 * 1024 * 1024];
    let mut store = open(Disk::default());
    let first = store.engine.put(b"long", &long);
    store.run_write(first).expect("put long");
    assert!(store.disk.files["data/active.wal"].is_empty());
    assert_eq!(store.stats().memtable_entries, 0);
    let mut again = open(store.disk);
    assert!(again.get("long").expect("get long") == Some(long));
}

#[test]
fn opening_gives_the_counts_back() {
    let store = mixed();
    let before = store.stats();
    let after = open(store.disk).stats();
    assert_eq!(after.memtable_entries, before.memtable_entries);
    assert_eq!(after.memtable_bytes, before.memtable_bytes);
    assert_eq!(after.sstable_count, before.sstable_count);
}

#[test]
fn compactions_of_damaged_rows_count_what_they_leave() {
    let mut store = open(Disk::default());
    store.put("a", "1").expect("put a");
    store.put("b", "2").expect("put b");
    store.flush_memtable().expect("flush");
    let path = store.disk.tables()[0].clone();
    // The first row begins with a byte for its kind, two lengths of four bytes, and the key.
    store.disk.files.get_mut(&path).expect("table")[9] = b'b';
    let first = store.compact_all().expect("compact");
    assert_eq!(first.input_entries, 2);
    assert_eq!(first.output_entries, 1);
    assert_eq!(first.dropped_entries, 1);
    assert_eq!(store.get("a").expect("get a"), None);
    assert_eq!(store.get("b").expect("get b"), Some(b"2".to_vec()));
    let second = store.compact_all().expect("compact again");
    assert_eq!(second.input_entries, 1);
    assert_eq!(second.output_entries, 1);
    assert_eq!(second.dropped_entries, 0);
}

#[test]
fn a_torn_record_at_the_end_of_the_log_is_left_out() {
    let mut store = open(Disk::default());
    store.put("a", "1").expect("put a");
    let whole = store.disk.files["data/active.wal"].len();
    store.put("b", "2").expect("put b");
    let mut disk = store.disk;
    for written in whole..disk.files["data/active.wal"].len() {
        let mut torn = disk.clone();
        torn.files
            .get_mut("data/active.wal")
            .expect("log")
            .truncate(written);
        let mut store = open(torn);
        assert_eq!(store.get("a").expect("get a"), Some(b"1".to_vec()));
        assert_eq!(store.get("b").expect("get b"), None);
    }
    let last = disk.files["data/active.wal"].len() - 1;
    disk.files.get_mut("data/active.wal").expect("log")[last] ^= 1;
    let failure = match open_with(StorageConfig::new("data"), disk) {
        Ok(_) => panic!("expected an error"),
        Err(error) => error.message(),
    };
    assert!(failure.starts_with("corrupt WAL: checksum mismatch: expected "));
}

#[test]
fn paths_of_the_store() {
    assert_eq!(active_wal_path("data"), "data/active.wal");
    assert_eq!(active_wal_path("data/"), "data/active.wal");
    assert_eq!(
        sstable_path("data", SstableId(7)),
        "data/sstables/00000000000000000007.sst"
    );
    assert_eq!(
        sstable_path("", SstableId(u64::MAX)),
        "sstables/18446744073709551615.sst"
    );
    assert!(is_sstable("x/00000000000000000007.sst"));
    assert!(!is_sstable("x/00000000000000000007.sst.tmp"));
    assert!(!is_sstable("x/.sst"));
    assert!(!is_sstable("x/active.wal"));
}

#[test]
fn the_size_of_a_memtable_counts_each_key_once() {
    let mut memtable = MemTable::new();
    assert!(memtable.is_empty());
    memtable.put(b"key", b"12345");
    assert_eq!(memtable.approximate_bytes(), 9);
    memtable.put(b"key", b"1");
    assert_eq!(memtable.approximate_bytes(), 5);
    memtable.delete(b"key");
    assert_eq!(memtable.approximate_bytes(), 4);
    assert_eq!(memtable.len(), 1);
    assert!(memtable.should_flush(4));
    assert!(!memtable.should_flush(5));
    assert_eq!(memtable.to_vec(), vec![(b"key".to_vec(), ValueRecord::Tombstone)]);
    memtable.clear();
    assert_eq!(memtable.approximate_bytes(), 0);
    assert!(memtable.iter().is_empty());
}

#[test]
fn a_memtable_keeps_keys_in_order() {
    let mut memtable = MemTable::new();
    memtable.put(b"b", b"2");
    memtable.put(b"a\xff", b"1");
    memtable.put(b"a", b"0");
    assert_eq!(
        memtable.to_vec(),
        vec![
            (b"a".to_vec(), value("0")),
            (b"a\xff".to_vec(), value("1")),
            (b"b".to_vec(), value("2")),
        ]
    );
}
