//! The storage engine.
//!
//! A write goes to the log first, then to the rows in memory; rows that have grown
//! to a threshold are flushed to a new table. A lookup asks the rows in memory, and
//! then the tables from the newest to the oldest. Compaction merges all tables into
//! one without the rows that were deleted.
use vstd::prelude::*;
use vstd::string::StringExecFns;

use crate::bytes::{copy_bytes, lex_lt};
use crate::storage::compaction::CompactionReport;
use crate::storage::error::{invalid_input, ErrorView, IoError, IoErrorKind, StorageError};
use crate::storage::memtable::{
    law_size_is_the_sum, row_size, summed_size, total_size, MemTable,
};
use crate::storage::merging::lemma_merge;
use crate::storage::paths::{
    active_wal_path, law_table_path_names_its_id, sstable_path, wal_path_spec,
};
use crate::storage::record_map::{pairs_of, rows_of, RecordMap, ValueRecord};
use crate::storage::rows::{
    apply, as_records, has_key, law_last_row_wins, lemma_apply_other, lemma_listing,
    lemma_live_rows_listing, lemma_no_empty_key, lemma_records_of_sorted, listing, live_rows,
    no_empty_key, records_of, sorted, with_prefix,
};
use crate::storage::sstable::{
    lemma_table_path, MetadataView, SstableId, SstableMetadata, SstableReader, SstableWriter,
    TableView,
};
use crate::storage::steps::{
    commit, compact_fits, compact_next, compact_read, compact_ready, compact_start, compact_write,
    empty_key_error, entry_fits, event_view, flush_fits, flush_next, flush_ready, flush_start,
    get_end, get_start, law_entries_of_tables, merge, newest, paths_of, record_of, removal_error,
    report_of, row_of, scan_from, scan_next, scan_start, total_entries, with_entry, write_fits,
    write_next, write_ready, write_start, Action, CompactView, EngineView, FlushView, ScanView,
    Step, StepView, WriteView,
};
use crate::storage::table_format::read_data_record;
use crate::storage::table_order::{
    law_sorted_tables, lemma_stable_ids, sort_by_id, stable_by_id, tables_of,
};
use crate::storage::wal::{entries_of, recover_spec, EntryView, Wal, WalEntry, WalOp};

verus! {

/// The size of the rows in memory at which they are flushed, unless another is
/// given.
pub const DEFAULT_MEMTABLE_FLUSH_THRESHOLD: usize = 67108864;

/// How an engine works.
#[derive(Debug)]
pub struct StorageConfig {
    pub data_dir: String,
    pub memtable_flush_threshold: usize,
    pub sync_writes: bool,
}

impl Clone for StorageConfig {
    fn clone(&self) -> (copy: Self)
        ensures
            copy == *self,
    {
        StorageConfig {
            data_dir: self.data_dir.clone(),
            memtable_flush_threshold: self.memtable_flush_threshold,
            sync_writes: self.sync_writes,
        }
    }
}

impl StorageConfig {
    /// The usual configuration of an engine in a directory.
    pub fn new(data_dir: &str) -> (config: Self)
        ensures
            config.data_dir@ == data_dir@,
            config.memtable_flush_threshold == DEFAULT_MEMTABLE_FLUSH_THRESHOLD,
            config.memtable_flush_threshold == 67_108_864,
            config.sync_writes,
    {
        StorageConfig {
            data_dir: String::from_str(data_dir),
            memtable_flush_threshold: DEFAULT_MEMTABLE_FLUSH_THRESHOLD,
            sync_writes: true,
        }
    }
}

/// The state of an engine in numbers.
#[derive(Clone, Copy, Debug, PartialEq, Eq, Structural)]
pub struct StorageStats {
    pub memtable_entries: usize,
    pub memtable_bytes: usize,
    pub flush_threshold_bytes: usize,
    pub should_flush: bool,
    pub sstable_count: usize,
    pub bloom_filter_count: usize,
    pub next_sstable_id: u64,
}

/// A storage engine.
#[derive(Debug)]
pub struct StorageEngine {
    config: StorageConfig,
    memtable: MemTable,
    wal: Wal,
    sstables: Vec<SstableReader>,
    next_sstable_id: u64,
}

impl View for StorageEngine {
    type V = EngineView;

    closed spec fn view(&self) -> EngineView {
        EngineView {
            data_dir: self.config.data_dir@,
            threshold: self.config.memtable_flush_threshold as nat,
            sync_writes: self.config.sync_writes,
            rows: self.memtable.rows(),
            tables: tables_of(self.sstables@),
            next_id: self.next_sstable_id,
        }
    }
}

// Flushing.

/// A flush under way.
#[derive(Debug)]
pub enum FlushOp {
    Writing { metadata: SstableMetadata, path: String },
    Loading { metadata: SstableMetadata, path: String },
    Resetting { metadata: SstableMetadata, reader: SstableReader },
}

impl View for FlushOp {
    type V = FlushView;

    open spec fn view(&self) -> FlushView {
        match self {
            FlushOp::Writing { metadata, path } => FlushView::Writing(metadata@, path@),
            FlushOp::Loading { metadata, path } => FlushView::Loading(metadata@, path@),
            FlushOp::Resetting { metadata, reader } => FlushView::Resetting(metadata@, reader@),
        }
    }
}

impl FlushOp {
    /// The new table can be used.
    pub open spec fn wf(&self) -> bool {
        self matches FlushOp::Resetting { reader, .. } ==> reader.wf()
    }
}

/// Metadata, if there is any, as contracts speak of it.
pub open spec fn metadata_view(metadata: Option<SstableMetadata>) -> Option<MetadataView> {
    match metadata {
        Some(found) => Some(found@),
        None => None,
    }
}

/// A step of a flush as contracts speak of it.
pub open spec fn flush_step(step: Step<FlushOp, Option<SstableMetadata>>) -> StepView<
    FlushView,
    Option<MetadataView>,
> {
    match step {
        Step::Perform(op, action) => StepView::Perform(op@, action@),
        Step::Done(Ok(metadata)) => StepView::Done(Ok(metadata_view(metadata))),
        Step::Done(Err(error)) => StepView::Done(Err(error@)),
    }
}

// Writing.

/// A write under way.
#[derive(Debug)]
pub enum WriteOp {
    Appending { entry: WalEntry },
    Syncing { entry: WalEntry },
    Flushing { flush: FlushOp },
}

impl View for WriteOp {
    type V = WriteView;

    open spec fn view(&self) -> WriteView {
        match self {
            WriteOp::Appending { entry } => WriteView::Appending(entry@),
            WriteOp::Syncing { entry } => WriteView::Syncing(entry@),
            WriteOp::Flushing { flush } => WriteView::Flushing(flush@),
        }
    }
}

impl WriteOp {
    /// The flush can go on.
    pub open spec fn wf(&self) -> bool {
        self matches WriteOp::Flushing { flush } ==> flush.wf()
    }
}

/// A step of a write as contracts speak of it.
pub open spec fn write_step(step: Step<WriteOp, ()>) -> StepView<WriteView, ()> {
    match step {
        Step::Perform(op, action) => StepView::Perform(op@, action@),
        Step::Done(Ok(done)) => StepView::Done(Ok(done)),
        Step::Done(Err(error)) => StepView::Done(Err(error@)),
    }
}

// Reading.

/// A lookup under way: the row of the key is being read.
#[derive(Debug)]
pub struct GetOp;

/// A step of a lookup as contracts speak of it.
pub open spec fn get_step(step: Step<GetOp, Option<Vec<u8>>>) -> StepView<(), Option<Seq<u8>>> {
    match step {
        Step::Perform(_, action) => StepView::Perform((), action@),
        Step::Done(result) => StepView::Done(value_outcome(result)),
    }
}

/// What a lookup returned, as contracts speak of it.
pub open spec fn value_outcome(result: Result<Option<Vec<u8>>, StorageError>) -> Result<
    Option<Seq<u8>>,
    ErrorView,
> {
    match result {
        Ok(Some(value)) => Ok(Some(value@)),
        Ok(None) => Ok(None),
        Err(error) => Err(error@),
    }
}

impl GetOp {
    /// Ends the lookup, given the bytes of the row.
    pub fn finish(self, event: Result<Vec<u8>, IoError>) -> (value: Result<
        Option<Vec<u8>>,
        StorageError,
    >)
        ensures
            value_outcome(value) == get_end(event_view(event)),
    {
        match event {
            Err(error) => Err(StorageError::Io(error)),
            Ok(bytes) => match read_data_record(bytes.as_slice()) {
                Err(error) => Err(error),
                Ok(row) => match row.record {
                    ValueRecord::Value(value) => Ok(Some(value)),
                    ValueRecord::Tombstone => Ok(None),
                },
            },
        }
    }
}

/// A scan under way: a table is being read.
#[derive(Debug)]
pub struct ScanOp {
    prefix: Vec<u8>,
    limit: usize,
    at: usize,
    merged: RecordMap,
}

impl View for ScanOp {
    type V = ScanView;

    closed spec fn view(&self) -> ScanView {
        ScanView {
            prefix: self.prefix@,
            limit: self.limit as nat,
            at: self.at as nat,
            merged: self.merged.rows(),
        }
    }
}

impl ScanOp {
    /// What was merged is in strict key order.
    pub closed spec fn wf(&self) -> bool {
        self.merged.wf()
    }
}

/// A step of a scan as contracts speak of it.
pub open spec fn scan_step(step: Step<ScanOp, Vec<(Vec<u8>, Vec<u8>)>>) -> StepView<
    ScanView,
    Seq<(Seq<u8>, Seq<u8>)>,
> {
    match step {
        Step::Perform(op, action) => StepView::Perform(op@, action@),
        Step::Done(Ok(pairs)) => StepView::Done(Ok(pairs_of(pairs@))),
        Step::Done(Err(error)) => StepView::Done(Err(error@)),
    }
}

/// Writes rows to a map, one after the other.
fn merge_rows(map: &mut RecordMap, rows: Vec<(Vec<u8>, ValueRecord)>)
    requires
        old(map).wf(),
    ensures
        final(map).wf(),
        final(map).rows() == merge(old(map).rows(), rows_of(rows@)),
{
    let ghost all = rows_of(rows@);
    let ghost before = map.rows();
    let ghost given = rows@;
    assert(all.take(0) =~= Seq::empty());
    for row in it: rows
        invariant
            it.seq() == given,
            all == rows_of(given),
            map.wf(),
            map@ == apply(records_of(before), all.take(it.index() as int)),
    {
        let ghost i = it.index() as int;
        assert(all.take(i + 1).drop_last() =~= all.take(i));
        assert(all.take(i + 1).last() == (row.0@, row.1@));
        let _ = map.insert(row.0, row.1);
    }
    assert(all.take(all.len() as int) =~= all);
    proof {
        lemma_listing(map.rows());
    }
}

// Compaction.

/// A compaction under way.
#[derive(Debug)]
pub enum CompactOp {
    Flushing { flush: FlushOp },
    Reading { flushed: bool, at: usize, merged: RecordMap },
    Writing { report: CompactionReport, path: String, old_paths: Vec<String> },
    Loading { report: CompactionReport, path: String, old_paths: Vec<String> },
    Removing {
        report: CompactionReport,
        reader: Option<SstableReader>,
        old_paths: Vec<String>,
        at: usize,
    },
}

/// Paths as contracts speak of them.
pub open spec fn texts_of(paths: Seq<String>) -> Seq<Seq<char>> {
    Seq::new(paths.len(), |i: int| paths[i]@)
}

/// A table, if there is one, as contracts speak of it.
pub open spec fn table_view(reader: Option<SstableReader>) -> Option<TableView> {
    match reader {
        Some(found) => Some(found@),
        None => None,
    }
}

impl View for CompactOp {
    type V = CompactView;

    open spec fn view(&self) -> CompactView {
        match self {
            CompactOp::Flushing { flush } => CompactView::Flushing(flush@),
            CompactOp::Reading { flushed, at, merged } => CompactView::Reading {
                flushed: *flushed,
                at: *at as nat,
                merged: merged.rows(),
            },
            CompactOp::Writing { report, path, old_paths } => CompactView::Writing {
                report: *report,
                path: path@,
                old_paths: texts_of(old_paths@),
            },
            CompactOp::Loading { report, path, old_paths } => CompactView::Loading {
                report: *report,
                path: path@,
                old_paths: texts_of(old_paths@),
            },
            CompactOp::Removing { report, reader, old_paths, at } => CompactView::Removing {
                report: *report,
                table: table_view(*reader),
                old_paths: texts_of(old_paths@),
                at: *at as nat,
            },
        }
    }
}

impl CompactOp {
    /// What was merged is in strict key order, and the new table can be used.
    pub open spec fn wf(&self) -> bool {
        match self {
            CompactOp::Flushing { flush } => flush.wf(),
            CompactOp::Reading { merged, .. } => merged.wf(),
            CompactOp::Removing { reader, .. } => reader is Some ==> reader->0.wf(),
            _ => true,
        }
    }
}

/// A step of a compaction as contracts speak of it.
pub open spec fn compact_step(step: Step<CompactOp, CompactionReport>) -> StepView<
    CompactView,
    CompactionReport,
> {
    match step {
        Step::Perform(op, action) => StepView::Perform(op@, action@),
        Step::Done(Ok(report)) => StepView::Done(Ok(report)),
        Step::Done(Err(error)) => StepView::Done(Err(error@)),
    }
}

/// Refuses an empty key.
pub fn validate_key(key: &[u8]) -> (done: Result<(), StorageError>)
    ensures
        done is Ok <==> key@.len() > 0,
        done is Err ==> done->Err_0@ == empty_key_error(),
        done is Err ==> done->Err_0@ == ErrorView::InvalidInput("keys must not be empty"@),
{
    if key.len() == 0 {
        Err(invalid_input("keys must not be empty"))
    } else {
        Ok(())
    }
}

/// Rows of values, as records.
fn values_of(pairs: Vec<(Vec<u8>, Vec<u8>)>) -> (entries: Vec<(Vec<u8>, ValueRecord)>)
    ensures
        rows_of(entries@) == as_records(pairs_of(pairs@)),
{
    let ghost given = pairs@;
    let mut entries: Vec<(Vec<u8>, ValueRecord)> = Vec::new();
    for pair in it: pairs
        invariant
            it.seq() == given,
            entries.len() == it.index(),
            forall|i: int|
                0 <= i < entries.len() ==> (#[trigger] entries@[i]).0@ == given[i].0@
                    && entries@[i].1@ == Some(given[i].1@),
    {
        entries.push((pair.0, ValueRecord::Value(pair.1)));
    }
    assert(rows_of(entries@) =~= as_records(pairs_of(given)));
    entries
}

impl StorageEngine {
    /// The rows are in order, without the empty key, and counted; each table can be
    /// used; and the tables stand in the order of their numbers, all below the next.
    pub closed spec fn wf(&self) -> bool {
        &&& self@.wf()
        &&& self.memtable.wf()
        &&& self.wal.location() == wal_path_spec(self.config.data_dir@)
        &&& forall|i: int| 0 <= i < self.sstables.len() ==> (#[trigger] self.sstables@[i]).wf()
    }

    /// What `wf` says of the engine.
    pub proof fn lemma_wf(&self)
        requires
            self.wf(),
        ensures
            self@.wf(),
            self@.threshold <= usize::MAX,
            self@.tables.len() <= usize::MAX,
    {
        assert(self.sstables.len() == self@.tables.len());
    }

    /// Flushes the rows in memory to a new table, if there are any.
    pub fn flush_memtable(&self) -> (step: Step<FlushOp, Option<SstableMetadata>>)
        requires
            self.wf(),
        ensures
            flush_step(step) == flush_start(self@),
            step matches Step::Perform(op, _) ==> op.wf() && flush_ready(self@, op@),
    {
        if self.memtable.is_empty() {
            return Step::Done(Ok(None));
        }
        let id = SstableId(self.next_sstable_id);
        let entries = self.memtable.to_vec();
        let path = sstable_path(self.config.data_dir.as_str(), id);
        match SstableWriter::write(id, entries.as_slice()) {
            Err(error) => Step::Done(Err(error)),
            Ok(table) => Step::Perform(
                FlushOp::Writing { metadata: table.metadata, path: path.clone() },
                Action::WriteTable { path, contents: table.contents },
            ),
        }
    }

    /// Goes on with a flush.
    pub fn resume_flush(&mut self, flush: FlushOp, event: Result<Vec<u8>, IoError>) -> (step: Step<
        FlushOp,
        Option<SstableMetadata>,
    >)
        requires
            old(self).wf(),
            flush.wf(),
            flush_ready(old(self)@, flush@),
            flush_fits(old(self)@, flush@),
        ensures
            final(self).wf(),
            (final(self)@, flush_step(step)) == flush_next(old(self)@, flush@, event_view(event)),
            step matches Step::Perform(op, _) ==> op.wf() && flush_ready(final(self)@, op@),
    {
        let bytes = match event {
            Err(error) => {
                return Step::Done(Err(StorageError::Io(error)));
            },
            Ok(bytes) => bytes,
        };
        match flush {
            FlushOp::Writing { metadata, path } => {
                let action = Action::ReadTable { path: path.clone() };
                Step::Perform(FlushOp::Loading { metadata, path }, action)
            },
            FlushOp::Loading { metadata, path } => match SstableReader::open(
                path.as_str(),
                bytes.as_slice(),
            ) {
                Err(error) => Step::Done(Err(error)),
                Ok(reader) => {
                    proof {
                        lemma_table_path(path@, bytes@);
                        law_table_path_names_its_id(self@.data_dir, self@.next_id);
                    }
                    Step::Perform(FlushOp::Resetting { metadata, reader }, Action::ResetWal)
                },
            },
            FlushOp::Resetting { metadata, reader } => {
                let ghost before = self@;
                proof {
                    reader.lemma_wf();
                }
                self.memtable.clear();
                self.sstables.push(reader);
                self.next_sstable_id = self.next_sstable_id + 1;
                assert(self@.tables =~= before.tables.push(reader@));
                proof {
                    lemma_table_taken_in(before, reader@, self@);
                }
                Step::Done(Ok(Some(metadata)))
            },
        }
    }

    /// Gives a key a value.
    pub fn put(&self, key: &[u8], value: &[u8]) -> (step: Step<WriteOp, ()>)
        requires
            self.wf(),
        ensures
            write_step(step) == write_start(
                self@,
                EntryView { op: WalOp::Put, key: key@, value: value@ },
            ),
            step matches Step::Perform(op, _) ==> op.wf() && write_ready(self@, op@),
    {
        if let Err(error) = validate_key(key) {
            return Step::Done(Err(error));
        }
        self.log_entry(WalEntry::put(key, value))
    }

    /// Deletes a key.
    pub fn delete(&self, key: &[u8]) -> (step: Step<WriteOp, ()>)
        requires
            self.wf(),
        ensures
            write_step(step) == write_start(
                self@,
                EntryView { op: WalOp::Delete, key: key@, value: Seq::empty() },
            ),
            step matches Step::Perform(op, _) ==> op.wf() && write_ready(self@, op@),
    {
        if let Err(error) = validate_key(key) {
            return Step::Done(Err(error));
        }
        self.log_entry(WalEntry::delete(key))
    }

    /// Begins to log an entry.
    fn log_entry(&self, entry: WalEntry) -> (step: Step<WriteOp, ()>)
        requires
            entry.key@.len() > 0,
        ensures
            write_step(step) == write_start(self@, entry@),
            step matches Step::Perform(op, _) ==> op.wf() && write_ready(self@, op@),
    {
        let mut record: Vec<u8> = Vec::new();
        match Wal::append(&mut record, &entry) {
            Err(error) => Step::Done(Err(error)),
            Ok(_) => {
                assert(record@ =~= Seq::empty() + record@);
                Step::Perform(WriteOp::Appending { entry }, Action::AppendWal { record })
            },
        }
    }

    /// Puts a logged entry in its place, and flushes if the rows have grown to the
    /// threshold.
    fn commit_entry(&mut self, entry: WalEntry) -> (step: Step<WriteOp, ()>)
        requires
            old(self).wf(),
            entry.key@.len() > 0,
            entry_fits(old(self)@, entry@),
        ensures
            final(self).wf(),
            (final(self)@, write_step(step)) == commit(old(self)@, entry@),
            step matches Step::Perform(op, _) ==> op.wf() && write_ready(final(self)@, op@),
    {
        apply_wal_entry(&mut self.memtable, &entry);
        proof {
            lemma_listing(self.memtable.rows());
            lemma_no_empty_key(old(self)@.rows);
            lemma_no_empty_key(self.memtable.rows());
        }
        assert(self@ =~= with_entry(old(self)@, entry@));
        if self.memtable.should_flush(self.config.memtable_flush_threshold) {
            match self.flush_memtable() {
                Step::Perform(flush, action) => Step::Perform(WriteOp::Flushing { flush }, action),
                Step::Done(Ok(_)) => Step::Done(Ok(())),
                Step::Done(Err(error)) => Step::Done(Err(error)),
            }
        } else {
            Step::Done(Ok(()))
        }
    }

    /// Goes on with a write.
    pub fn resume_write(&mut self, write: WriteOp, event: Result<Vec<u8>, IoError>) -> (step: Step<
        WriteOp,
        (),
    >)
        requires
            old(self).wf(),
            write.wf(),
            write_ready(old(self)@, write@),
            write_fits(old(self)@, write@),
        ensures
            final(self).wf(),
            (final(self)@, write_step(step)) == write_next(old(self)@, write@, event_view(event)),
            step matches Step::Perform(op, _) ==> op.wf() && write_ready(final(self)@, op@),
    {
        match write {
            WriteOp::Flushing { flush } => match self.resume_flush(flush, event) {
                Step::Perform(flush, action) => Step::Perform(WriteOp::Flushing { flush }, action),
                Step::Done(Ok(_)) => Step::Done(Ok(())),
                Step::Done(Err(error)) => Step::Done(Err(error)),
            },
            WriteOp::Appending { entry } => match event {
                Err(error) => Step::Done(Err(StorageError::Io(error))),
                Ok(_) => if self.config.sync_writes {
                    Step::Perform(WriteOp::Syncing { entry }, Action::SyncWal)
                } else {
                    self.commit_entry(entry)
                },
            },
            WriteOp::Syncing { entry } => match event {
                Err(error) => Step::Done(Err(StorageError::Io(error))),
                Ok(_) => self.commit_entry(entry),
            },
        }
    }

    /// The value of a key.
    pub fn get(&self, key: &[u8]) -> (step: Step<GetOp, Option<Vec<u8>>>)
        requires
            self.wf(),
        ensures
            get_step(step) == get_start(self@, key@),
    {
        if let Err(error) = validate_key(key) {
            return Step::Done(Err(error));
        }
        if let Some(record) = self.memtable.get(key) {
            return match record {
                ValueRecord::Value(value) => Step::Done(Ok(Some(copy_bytes(value.as_slice())))),
                ValueRecord::Tombstone => Step::Done(Ok(None)),
            };
        }
        let ghost tables = self@.tables;
        let mut left: usize = self.sstables.len();
        assert(tables.take(left as int) =~= tables);
        while left > 0
            invariant
                self.wf(),
                tables == self@.tables,
                left <= self.sstables.len(),
                key@.len() > 0,
                !records_of(self@.rows).contains_key(key@),
                newest(tables, key@) == newest(tables.take(left as int), key@),
            decreases left,
        {
            let ghost front = tables.take(left as int);
            assert(front.drop_last() =~= tables.take(left - 1));
            assert(front.last() == self.sstables@[left - 1]@);
            if let Some(offset) = self.sstables[left - 1].find(key) {
                let path = String::from_str(self.sstables[left - 1].path());
                return Step::Perform(GetOp, Action::ReadRecord { path, offset });
            }
            left -= 1;
        }
        Step::Done(Ok(None))
    }

    /// The first `limit` keys with a prefix, with their values.
    pub fn scan_prefix(&self, prefix: &[u8], limit: usize) -> (step: Step<
        ScanOp,
        Vec<(Vec<u8>, Vec<u8>)>,
    >)
        requires
            self.wf(),
        ensures
            scan_step(step) == scan_start(self@, prefix@, limit as nat),
            step matches Step::Perform(op, _) ==> op.wf() && op@.at < self@.tables.len(),
    {
        self.scan_tables(
            ScanOp { prefix: copy_bytes(prefix), limit, at: 0, merged: RecordMap::new() },
        )
    }

    /// Looks for the next table to read; behind the last, ends the scan.
    fn scan_tables(&self, scan: ScanOp) -> (step: Step<ScanOp, Vec<(Vec<u8>, Vec<u8>)>>)
        requires
            self.wf(),
            scan.wf(),
        ensures
            scan_step(step) == scan_from(self@, scan@),
            step matches Step::Perform(op, _) ==> op.wf() && op@.at < self@.tables.len(),
    {
        let mut current = scan;
        while current.at < self.sstables.len()
            invariant
                self.wf(),
                current.wf(),
                scan_from(self@, scan@) == scan_from(self@, current@),
            decreases self.sstables.len() - current.at,
        {
            let ghost before = current@;
            if self.sstables[current.at].has_prefix(current.prefix.as_slice()) {
                let path = String::from_str(self.sstables[current.at].path());
                return Step::Perform(current, Action::ReadTable { path });
            }
            current.at = current.at + 1;
            assert(current@ == (ScanView { at: before.at + 1, ..before }));
        }
        let most: usize = self.memtable.len();
        let rows = self.memtable.scan_prefix(current.prefix.as_slice(), usize::MAX);
        let ghost found = rows_of(rows@);
        proof {
            let all = with_prefix(self@.rows, current.prefix@);
            crate::storage::rows::lemma_filter_len(
                self@.rows,
                |row: (Seq<u8>, Option<Seq<u8>>)| current.prefix@.is_prefix_of(row.0),
            );
            assert(all.len() <= most);
            assert(found == all);
        }
        let limit: usize = current.limit;
        let mut merged = current.merged;
        merge_rows(&mut merged, rows);
        Step::Done(Ok(merged.into_live_pairs(limit)))
    }

    /// Goes on with a scan.
    pub fn resume_scan(&self, scan: ScanOp, event: Result<Vec<u8>, IoError>) -> (step: Step<
        ScanOp,
        Vec<(Vec<u8>, Vec<u8>)>,
    >)
        requires
            self.wf(),
            scan.wf(),
            scan@.at < self@.tables.len(),
        ensures
            scan_step(step) == scan_next(self@, scan@, event_view(event)),
            step matches Step::Perform(op, _) ==> op.wf() && op@.at < self@.tables.len(),
    {
        let file = match event {
            Err(error) => {
                return Step::Done(Err(StorageError::Io(error)));
            },
            Ok(file) => file,
        };
        let mut scan = scan;
        let ghost before = scan@;
        let ghost index = self@.tables[scan.at as int].index;
        proof {
            self.lemma_wf();
            crate::storage::rows::lemma_filter_len(
                index,
                |row: (Seq<u8>, u64)| scan.prefix@.is_prefix_of(row.0),
            );
        }
        match self.sstables[scan.at].scan_prefix(
            scan.prefix.as_slice(),
            usize::MAX,
            file.as_slice(),
        ) {
            Err(error) => Step::Done(Err(error)),
            Ok(rows) => {
                merge_rows(&mut scan.merged, rows);
                scan.at = scan.at + 1;
                self.scan_tables(scan)
            },
        }
    }

    /// How many entries the tables have together; `None` where the machine holds
    /// no such number.
    pub fn total_entries(&self) -> (count: Option<u64>)
        requires
            self.wf(),
        ensures
            count is Some <==> total_entries(self@.tables) <= u64::MAX,
            count is Some ==> count->0 == total_entries(self@.tables),
            count is Some ==> count->0 == self@.tables.fold_left(
                0int,
                |sum: int, table: TableView| sum + table.index.len(),
            ),
    {
        proof {
            law_entries_of_tables(self@.tables);
        }
        let ghost tables = self@.tables;
        let mut count: u64 = 0;
        let mut i: usize = 0;
        assert(tables.take(0) =~= Seq::empty());
        while i < self.sstables.len()
            invariant
                self.wf(),
                tables == self@.tables,
                i <= self.sstables.len(),
                count == total_entries(tables.take(i as int)),
            decreases self.sstables.len() - i,
        {
            assert(tables.take(i + 1).drop_last() =~= tables.take(i as int));
            assert(tables.take(i + 1).last() == self.sstables@[i as int]@);
            let more: u64 = self.sstables[i].metadata().entry_count;
            match count.checked_add(more) {
                Some(sum) => {
                    count = sum;
                },
                None => {
                    proof {
                        lemma_total_entries_grows(tables, i + 1);
                    }
                    return None;
                },
            }
            i += 1;
        }
        assert(tables.take(i as int) =~= tables);
        Some(count)
    }

    /// Where the tables are, from the oldest to the newest.
    fn table_paths(&self) -> (paths: Vec<String>)
        ensures
            texts_of(paths@) == paths_of(self@.tables),
    {
        let mut paths: Vec<String> = Vec::new();
        let mut i: usize = 0;
        while i < self.sstables.len()
            invariant
                i <= self.sstables.len(),
                paths.len() == i,
                forall|j: int| 0 <= j < i ==> (#[trigger] paths@[j])@ == self@.tables[j].path,
            decreases self.sstables.len() - i,
        {
            paths.push(String::from_str(self.sstables[i].path()));
            i += 1;
        }
        assert(texts_of(paths@) =~= paths_of(self@.tables));
        paths
    }

    /// Flushes the rows in memory, and merges all tables into one that holds the
    /// newest value of each key.
    pub fn compact_all(&self) -> (step: Step<CompactOp, CompactionReport>)
        requires
            self.wf(),
        ensures
            compact_step(step) == compact_start(self@),
            step matches Step::Perform(op, _) ==> op.wf() && compact_ready(self@, op@),
    {
        match self.flush_memtable() {
            Step::Perform(flush, action) => Step::Perform(CompactOp::Flushing { flush }, action),
            Step::Done(Ok(metadata)) => self.read_tables(metadata.is_some()),
            Step::Done(Err(error)) => Step::Done(Err(error)),
        }
    }

    /// Begins to read the tables of a compaction, if there are any.
    fn read_tables(&self, flushed: bool) -> (step: Step<CompactOp, CompactionReport>)
        requires
            self.wf(),
        ensures
            compact_step(step) == compact_read(self@, flushed),
            step matches Step::Perform(op, _) ==> op.wf() && compact_ready(self@, op@),
    {
        if self.sstables.len() == 0 {
            let mut report = CompactionReport::empty();
            report.flushed_memtable = flushed;
            return Step::Done(Ok(report));
        }
        let path = String::from_str(self.sstables[0].path());
        Step::Perform(
            CompactOp::Reading { flushed, at: 0, merged: RecordMap::new() },
            Action::ReadTable { path },
        )
    }

    /// Lets go of the tables of a compaction, and begins to write the new one.
    fn write_merged(&mut self, flushed: bool, merged: RecordMap) -> (step: Step<
        CompactOp,
        CompactionReport,
    >)
        requires
            old(self).wf(),
            merged.wf(),
            old(self)@.tables.len() > 0,
            total_entries(old(self)@.tables) <= u64::MAX,
        ensures
            final(self).wf(),
            (final(self)@, compact_step(step)) == compact_write(
                old(self)@,
                flushed,
                merged.rows(),
            ),
            step matches Step::Perform(op, _) ==> op.wf() && compact_ready(final(self)@, op@),
    {
        let ghost before = self@;
        let ghost rows = merged.rows();
        let input_sstables: usize = self.sstables.len();
        let input_entries: u64 = match self.total_entries() {
            Some(count) => count,
            None => 0,
        };
        let old_paths = self.table_paths();
        let most: usize = merged.len();
        proof {
            lemma_live_rows_listing(rows);
        }
        let output = values_of(merged.into_live_pairs(most));
        assert(rows_of(output@) == as_records(live_rows(rows)));
        assert(rows_of(output@).len() == output.len());
        let output_entries: u64 = output.len() as u64;
        self.sstables.clear();
        assert(self@ =~= (EngineView { tables: Seq::empty(), ..before }));
        let report = CompactionReport {
            flushed_memtable: flushed,
            input_sstables,
            output_sstables: if output.len() == 0 {
                0
            } else {
                1
            },
            input_entries,
            output_entries,
            dropped_entries: input_entries.saturating_sub(output_entries),
        };
        assert(report == report_of(before, flushed, rows));
        assert(texts_of(old_paths@).len() == old_paths.len());
        if output.len() == 0 {
            let path = old_paths[0].clone();
            assert(path@ == texts_of(old_paths@)[0]);
            return Step::Perform(
                CompactOp::Removing { report, reader: None, old_paths, at: 0 },
                Action::RemoveFile { path },
            );
        }
        let id = SstableId(self.next_sstable_id);
        let path = sstable_path(self.config.data_dir.as_str(), id);
        match SstableWriter::write(id, output.as_slice()) {
            Err(error) => Step::Done(Err(error)),
            Ok(table) => Step::Perform(
                CompactOp::Writing { report, path: path.clone(), old_paths },
                Action::WriteTable { path, contents: table.contents },
            ),
        }
    }

    /// Goes on with a compaction.
    pub fn resume_compaction(
        &mut self,
        compact: CompactOp,
        event: Result<Vec<u8>, IoError>,
    ) -> (step: Step<CompactOp, CompactionReport>)
        requires
            old(self).wf(),
            compact.wf(),
            compact_ready(old(self)@, compact@),
            compact_fits(old(self)@, compact@),
        ensures
            final(self).wf(),
            (final(self)@, compact_step(step)) == compact_next(
                old(self)@,
                compact@,
                event_view(event),
            ),
            step matches Step::Perform(op, _) ==> op.wf() && compact_ready(final(self)@, op@),
    {
        match compact {
            CompactOp::Flushing { flush } => match self.resume_flush(flush, event) {
                Step::Perform(flush, action) => Step::Perform(
                    CompactOp::Flushing { flush },
                    action,
                ),
                Step::Done(Ok(metadata)) => self.read_tables(metadata.is_some()),
                Step::Done(Err(error)) => Step::Done(Err(error)),
            },
            CompactOp::Reading { flushed, at, merged } => self.merge_table(
                flushed,
                at,
                merged,
                event,
            ),
            CompactOp::Writing { report, path, old_paths } => match event {
                Err(error) => Step::Done(Err(StorageError::Io(error))),
                Ok(_) => {
                    let action = Action::ReadTable { path: path.clone() };
                    Step::Perform(CompactOp::Loading { report, path, old_paths }, action)
                },
            },
            CompactOp::Loading { report, path, old_paths } => match event {
                Err(error) => Step::Done(Err(StorageError::Io(error))),
                Ok(file) => match SstableReader::open(path.as_str(), file.as_slice()) {
                    Err(error) => Step::Done(Err(error)),
                    Ok(reader) => {
                        proof {
                            lemma_table_path(path@, file@);
                            law_table_path_names_its_id(self@.data_dir, self@.next_id);
                        }
                        assert(texts_of(old_paths@).len() == old_paths.len());
                        let first = old_paths[0].clone();
                        assert(first@ == texts_of(old_paths@)[0]);
                        Step::Perform(
                            CompactOp::Removing { report, reader: Some(reader), old_paths, at: 0 },
                            Action::RemoveFile { path: first },
                        )
                    },
                },
            },
            CompactOp::Removing { report, reader, old_paths, at } => self.remove_next(
                report,
                reader,
                old_paths,
                at,
                event,
            ),
        }
    }

    /// Merges the rows of a table in, and goes on to the next.
    fn merge_table(
        &mut self,
        flushed: bool,
        at: usize,
        merged: RecordMap,
        event: Result<Vec<u8>, IoError>,
    ) -> (step: Step<CompactOp, CompactionReport>)
        requires
            old(self).wf(),
            merged.wf(),
            at < old(self)@.tables.len(),
            total_entries(old(self)@.tables) <= u64::MAX,
        ensures
            final(self).wf(),
            (final(self)@, compact_step(step)) == compact_next(
                old(self)@,
                CompactView::Reading { flushed, at: at as nat, merged: merged.rows() },
                event_view(event),
            ),
            step matches Step::Perform(op, _) ==> op.wf() && compact_ready(final(self)@, op@),
    {
        let file = match event {
            Err(error) => {
                return Step::Done(Err(StorageError::Io(error)));
            },
            Ok(file) => file,
        };
        let rows = match self.sstables[at].entries(file.as_slice()) {
            Err(error) => {
                return Step::Done(Err(error));
            },
            Ok(rows) => rows,
        };
        let mut merged = merged;
        merge_rows(&mut merged, rows);
        let count: usize = self.sstables.len();
        if at + 1 < count {
            let path = String::from_str(self.sstables[at + 1].path());
            Step::Perform(
                CompactOp::Reading { flushed, at: at + 1, merged },
                Action::ReadTable { path },
            )
        } else {
            self.write_merged(flushed, merged)
        }
    }

    /// Goes on to the next old table to remove; behind the last, takes the new
    /// table in.
    fn remove_next(
        &mut self,
        report: CompactionReport,
        reader: Option<SstableReader>,
        old_paths: Vec<String>,
        at: usize,
        event: Result<Vec<u8>, IoError>,
    ) -> (step: Step<CompactOp, CompactionReport>)
        requires
            old(self).wf(),
            reader is Some ==> reader->0.wf(),
            at < old_paths.len(),
            reader is Some ==> reader->0@.id == old(self)@.next_id,
            reader is Some ==> old(self)@.next_id < u64::MAX,
        ensures
            final(self).wf(),
            (final(self)@, compact_step(step)) == compact_next(
                old(self)@,
                CompactView::Removing {
                    report,
                    table: table_view(reader),
                    old_paths: texts_of(old_paths@),
                    at: at as nat,
                },
                event_view(event),
            ),
            step matches Step::Perform(op, _) ==> op.wf() && compact_ready(final(self)@, op@),
    {
        if let Some(error) = remove_file_if_exists(event) {
            return Step::Done(Err(error));
        }
        if at + 1 < old_paths.len() {
            let path = old_paths[at + 1].clone();
            assert(path@ == texts_of(old_paths@)[at as int + 1]);
            return Step::Perform(
                CompactOp::Removing { report, reader, old_paths, at: at + 1 },
                Action::RemoveFile { path },
            );
        }
        if let Some(new_table) = reader {
            let ghost before = self@;
            proof {
                new_table.lemma_wf();
            }
            self.sstables.push(new_table);
            self.next_sstable_id = self.next_sstable_id + 1;
            assert(self@.tables =~= before.tables.push(new_table@));
            proof {
                lemma_table_taken_in(before, new_table@, self@);
            }
        }
        Step::Done(Ok(report))
    }

    /// The state of the engine in numbers.
    pub fn stats(&self) -> (stats: StorageStats)
        requires
            self.wf(),
        ensures
            stats.memtable_entries == self@.rows.len(),
            stats.memtable_bytes == total_size(self@.rows),
            stats.flush_threshold_bytes == self@.threshold,
            stats.should_flush == (total_size(self@.rows) >= self@.threshold),
            stats.sstable_count == self@.tables.len(),
            stats.bloom_filter_count == filter_count(self@.tables),
            stats.next_sstable_id == self@.next_id,
            stats.memtable_bytes == summed_size(self@.rows),
            stats.should_flush == (summed_size(self@.rows) >= self@.threshold),
            stats.bloom_filter_count == self@.tables.filter(
                |table: TableView| table.filter is Some,
            ).len(),
            stats.bloom_filter_count <= stats.sstable_count,
            stats.memtable_entries == 0 ==> stats.memtable_bytes == 0,
            forall|i: int|
                0 <= i < self@.tables.len() ==> (#[trigger] self@.tables[i]).id
                    < stats.next_sstable_id,
    {
        let ghost tables = self@.tables;
        let memtable_bytes = self.memtable.approximate_bytes();
        let mut bloom_filter_count: usize = 0;
        let mut i: usize = 0;
        assert(tables.take(0) =~= Seq::empty());
        while i < self.sstables.len()
            invariant
                tables == self@.tables,
                i <= self.sstables.len(),
                bloom_filter_count == filter_count(tables.take(i as int)),
                bloom_filter_count <= i,
            decreases self.sstables.len() - i,
        {
            assert(tables.take(i + 1).drop_last() =~= tables.take(i as int));
            assert(tables.take(i + 1).last() == self.sstables@[i as int]@);
            if self.sstables[i].has_bloom_filter() {
                bloom_filter_count += 1;
            }
            i += 1;
        }
        assert(tables.take(i as int) =~= tables);
        proof {
            law_size_is_the_sum(self@.rows);
            law_tables_with_a_filter(tables);
        }
        StorageStats {
            memtable_entries: self.memtable.len(),
            memtable_bytes,
            flush_threshold_bytes: self.config.memtable_flush_threshold,
            should_flush: memtable_bytes >= self.config.memtable_flush_threshold,
            sstable_count: self.sstables.len(),
            bloom_filter_count,
            next_sstable_id: self.next_sstable_id,
        }
    }

    /// Where the log is.
    pub fn wal_path(&self) -> (path: &str)
        requires
            self.wf(),
        ensures
            path@ == wal_path_spec(self@.data_dir),
    {
        self.wal.path()
    }

    /// Opens an engine, given its table files, in any order, and the bytes of its
    /// log.
    pub fn open(config: StorageConfig, sstables: Vec<SstableReader>, log: &[u8]) -> (engine: Result<
        Self,
        StorageError,
    >)
        requires
            forall|i: int| 0 <= i < sstables.len() ==> (#[trigger] sstables@[i]).wf(),
            forall|i: int| 0 <= i < sstables.len() ==> (#[trigger] sstables@[i])@.id < u64::MAX,
        ensures
            match recover_spec(log@) {
                Err(error) => engine is Err && engine->Err_0@ == error,
                Ok(entries) => engine is Ok && engine->Ok_0.wf() && opened(
                    engine->Ok_0@,
                    config,
                    tables_of(sstables@),
                    entries,
                ),
            },
    {
        let ghost found = tables_of(sstables@);
        let wal_path = active_wal_path(config.data_dir.as_str());
        let sstables = sort_by_id(sstables);
        let ghost tables = tables_of(sstables@);
        proof {
            lemma_stable_ids(found, tables);
        }
        let next_sstable_id: u64 = if sstables.len() == 0 {
            1
        } else {
            let last: usize = sstables.len() - 1;
            assert(tables[last as int] == sstables@[last as int]@);
            sstables[last].metadata().id.0 + 1
        };
        let entries = match Wal::recover(log) {
            Err(error) => {
                return Err(error);
            },
            Ok(entries) => entries,
        };
        let log_len: usize = log.len();
        proof {
            lemma_recovered_size(log@);
        }
        let memtable = replay(entries, log_len);
        let wal = Wal::open(wal_path);
        let engine = StorageEngine { config, memtable, wal, sstables, next_sstable_id };
        proof {
            lemma_listing(engine.memtable.rows());
            lemma_recovered_keys(log@);
            lemma_keyed_rows(rows_of_log(recover_spec(log@)->Ok_0));
            lemma_no_empty_key(engine.memtable.rows());
            assert forall|i: int| 0 <= i < engine@.tables.len() implies (
            #[trigger] engine@.tables[i]).wf() && engine@.tables[i].id < engine@.next_id by {
                engine.sstables@[i].lemma_wf();
                assert(engine@.tables[i].id <= engine@.tables.last().id);
            }
        }
        Ok(engine)
    }
}

/// The rows that log entries write.
pub open spec fn rows_of_log(entries: Seq<EntryView>) -> Seq<(Seq<u8>, Option<Seq<u8>>)> {
    entries.map_values(|entry: EntryView| row_of(entry))
}

/// What an engine is when it was opened with the tables `found` and a log with
/// these entries.
pub open spec fn opened(
    e: EngineView,
    config: StorageConfig,
    found: Seq<TableView>,
    entries: Seq<EntryView>,
) -> bool {
    &&& e.data_dir == config.data_dir@
    &&& e.threshold == config.memtable_flush_threshold
    &&& e.sync_writes == config.sync_writes
    &&& e.rows == listing(apply(Map::empty(), rows_of_log(entries)))
    &&& stable_by_id(found, e.tables)
    &&& e.next_id == if e.tables.len() == 0 {
        1
    } else {
        e.tables.last().id + 1
    }
}

/// The rows of a log are no longer than the log.
proof fn lemma_recovered_size(log: Seq<u8>)
    ensures
        recover_spec(log) matches Ok(entries) ==> total_size(rows_of_log(entries)) <= log.len(),
    decreases log.len(),
{
    if let Ok(entries) = recover_spec(log) {
        let length = crate::bytes::le_value(log.subrange(0, 4)) as int;
        if entries.len() == 0 {
        } else {
            let payload = log.subrange(4, 4 + length);
            let rest = log.skip(8 + length);
            let first = crate::storage::wal::decode_spec(payload)->Ok_0;
            let more = recover_spec(rest)->Ok_0;
            lemma_recovered_size(rest);
            assert(entries == seq![first] + more);
            assert(rows_of_log(entries) =~= seq![row_of(first)] + rows_of_log(more));
            crate::storage::memtable::lemma_total_size_concat(
                seq![row_of(first)],
                rows_of_log(more),
            );
            crate::storage::memtable::lemma_total_size_one(row_of(first));
        }
    }
}

/// No entry of a log has the empty key.
proof fn lemma_recovered_keys(log: Seq<u8>)
    ensures
        recover_spec(log) matches Ok(entries) ==> no_empty_key(rows_of_log(entries)),
    decreases log.len(),
{
    if let Ok(entries) = recover_spec(log) {
        let length = crate::bytes::le_value(log.subrange(0, 4)) as int;
        if entries.len() > 0 {
            let payload = log.subrange(4, 4 + length);
            let rest = log.skip(8 + length);
            let first = crate::storage::wal::decode_spec(payload)->Ok_0;
            let more = recover_spec(rest)->Ok_0;
            lemma_recovered_keys(rest);
            assert(entries == seq![first] + more);
            let rows = rows_of_log(entries);
            assert forall|i: int| 0 <= i < rows.len() implies (#[trigger] rows[i]).0.len() > 0 by {
                if i > 0 {
                    assert(rows[i] == rows_of_log(more)[i - 1]);
                }
            }
        }
    }
}

/// Rows without the empty key do not write it.
pub proof fn lemma_keyed_rows(rows: Seq<(Seq<u8>, Option<Seq<u8>>)>)
    requires
        no_empty_key(rows),
    ensures
        !apply(Map::<Seq<u8>, Option<Seq<u8>>>::empty(), rows).contains_key(Seq::empty()),
{
    let none = Seq::<u8>::empty();
    if has_key(rows, none) {
        let i = choose|i: int| 0 <= i < rows.len() && #[trigger] rows[i].0 == none;
        assert(rows[i].0.len() == 0);
    }
    lemma_apply_other(Map::<Seq<u8>, Option<Seq<u8>>>::empty(), rows, none);
}

/// An engine that takes in the table with the next number stays in order.
pub proof fn lemma_table_taken_in(e: EngineView, table: TableView, after: EngineView)
    requires
        e.wf(),
        table.wf(),
        table.id == e.next_id,
        e.next_id < u64::MAX,
        after.tables == e.tables.push(table),
        after.next_id == e.next_id + 1,
        sorted(after.rows),
        no_empty_key(after.rows),
    ensures
        after.wf(),
{
    let n = e.tables.len() as int;
    assert forall|i: int| 0 <= i < after.tables.len() implies (#[trigger] after.tables[i]).wf()
        && after.tables[i].id < after.next_id by {
        if i < n {
            assert(after.tables[i] == e.tables[i]);
        }
    }
    assert forall|i: int, j: int| 0 <= i < j < after.tables.len() implies (
    #[trigger] after.tables[i]).id <= (#[trigger] after.tables[j]).id by {
        assert(after.tables[i] == e.tables[i]);
        if j < n {
            assert(after.tables[j] == e.tables[j]);
        }
    }
}

/// The rows that log entries leave behind.
fn replay(entries: Vec<WalEntry>, log_len: usize) -> (memtable: MemTable)
    requires
        total_size(rows_of_log(entries_of(entries@))) <= log_len,
    ensures
        memtable.wf(),
        memtable@ == apply(Map::empty(), rows_of_log(entries_of(entries@))),
{
    let ghost given = entries@;
    let ghost all = rows_of_log(entries_of(given));
    let mut memtable = MemTable::new();
    assert(all.take(0) =~= Seq::empty());
    for entry in it: entries
        invariant
            it.seq() == given,
            all == rows_of_log(entries_of(given)),
            total_size(all) <= log_len,
            memtable.wf(),
            memtable.bytes() <= total_size(all.take(it.index() as int)),
            memtable@ == apply(Map::empty(), all.take(it.index() as int)),
    {
        let ghost i = it.index() as int;
        assert(all.take(i + 1).drop_last() =~= all.take(i));
        assert(all.take(i + 1).last() == row_of(entry@));
        proof {
            crate::storage::memtable::lemma_total_size_concat(all.take(i + 1), all.skip(i + 1));
            assert(all.take(i + 1) + all.skip(i + 1) =~= all);
        }
        apply_wal_entry(&mut memtable, &entry);
    }
    assert(all.take(all.len() as int) =~= all);
    memtable
}

/// How many of the tables have a filter.
pub open spec fn filter_count(tables: Seq<TableView>) -> nat
    decreases tables.len(),
{
    if tables.len() == 0 {
        0
    } else {
        filter_count(tables.drop_last()) + (if tables.last().filter is Some {
            1nat
        } else {
            0nat
        })
    }
}

/// More tables have no fewer entries.
proof fn lemma_total_entries_grows(tables: Seq<TableView>, n: int)
    requires
        0 <= n <= tables.len(),
    ensures
        total_entries(tables.take(n)) <= total_entries(tables),
    decreases tables.len(),
{
    if n == tables.len() {
        assert(tables.take(n) =~= tables);
    } else {
        assert(tables.drop_last().take(n) =~= tables.take(n));
        lemma_total_entries_grows(tables.drop_last(), n);
    }
}

/// Why removing a file failed, unless it was gone already.
pub fn remove_file_if_exists(event: Result<Vec<u8>, IoError>) -> (failure: Option<StorageError>)
    ensures
        match removal_error(event_view(event)) {
            None => failure is None,
            Some(error) => failure is Some && failure->0@ == error,
        },
{
    match event {
        Ok(_) => None,
        Err(error) => if error.kind == IoErrorKind::NotFound {
            None
        } else {
            Some(StorageError::Io(error))
        },
    }
}

/// Gives the key of a log entry the entry's record.
pub fn apply_wal_entry(memtable: &mut MemTable, entry: &WalEntry)
    requires
        old(memtable).wf(),
        old(memtable).bytes() + row_size(row_of(entry@)) <= usize::MAX,
    ensures
        final(memtable).wf(),
        final(memtable)@ == old(memtable)@.insert(entry.key@, record_of(entry@)),
        final(memtable).bytes() <= old(memtable).bytes() + row_size(row_of(entry@)),
{
    match entry.op {
        WalOp::Put => memtable.put(entry.key.as_slice(), entry.value.as_slice()),
        WalOp::Delete => memtable.delete(entry.key.as_slice()),
    }
}

// What is spoken of.

/// The number of tables with a filter is that of the tables that have one.
pub proof fn law_tables_with_a_filter(tables: Seq<TableView>)
    ensures
        filter_count(tables) == tables.filter(|table: TableView| table.filter is Some).len(),
    decreases tables.len(),
{
    reveal(Seq::filter);
    if tables.len() > 0 {
        law_tables_with_a_filter(tables.drop_last());
    }
}

/// A log entry writes one row: its key with its value if it is a put, and its key without
/// one if it is a delete.
pub proof fn law_rows_of_a_log(entries: Seq<EntryView>)
    ensures
        rows_of_log(entries).len() == entries.len(),
        forall|i: int|
            0 <= i < entries.len() ==> (#[trigger] rows_of_log(entries)[i]).0 == entries[i].key,
        forall|i: int|
            0 <= i < entries.len() && entries[i].op == WalOp::Put ==> (
            #[trigger] rows_of_log(entries)[i]).1 == Some(entries[i].value),
        forall|i: int|
            0 <= i < entries.len() && entries[i].op == WalOp::Delete ==> (
            #[trigger] rows_of_log(entries)[i]).1 is None,
{
}

/// An engine that was opened has the configuration that it was opened with. Its tables are
/// all those that were found, in the order of their numbers. The next number is the one
/// behind the highest of theirs, and one where there are none. Its rows stand in strict
/// key order, and have the keys of the log entries and no others, each with what its last
/// entry wrote.
pub proof fn law_opened_engine(
    e: EngineView,
    config: StorageConfig,
    found: Seq<TableView>,
    entries: Seq<EntryView>,
)
    requires
        opened(e, config, found, entries),
    ensures
        e.data_dir == config.data_dir@,
        e.threshold == config.memtable_flush_threshold,
        e.sync_writes == config.sync_writes,
        e.tables.to_multiset() == found.to_multiset(),
        forall|i: int, j: int|
            0 <= i < j < e.tables.len() ==> (#[trigger] e.tables[i]).id <= (
            #[trigger] e.tables[j]).id,
        e.tables.len() == 0 ==> e.next_id == 1,
        e.tables.len() > 0 ==> e.next_id == e.tables[e.tables.len() - 1].id + 1,
        forall|i: int, j: int|
            0 <= i < j < e.rows.len() ==> lex_lt(#[trigger] e.rows[i].0, #[trigger] e.rows[j].0),
        forall|i: int|
            0 <= i < entries.len() && (forall|j: int|
                i < j < entries.len() ==> (#[trigger] entries[j]).key != entries[i].key)
                ==> e.rows.contains(
                (
                    (#[trigger] entries[i]).key,
                    if entries[i].op == WalOp::Put {
                        Some(entries[i].value)
                    } else {
                        None
                    },
                ),
            ),
        forall|i: int|
            0 <= i < e.rows.len() ==> exists|j: int|
                0 <= j < entries.len() && (#[trigger] entries[j]).key == (#[trigger] e.rows[i]).0,
{
    let none = Map::<Seq<u8>, Option<Seq<u8>>>::empty();
    let rows = rows_of_log(entries);
    let nothing = Seq::<(Seq<u8>, Option<Seq<u8>>)>::empty();
    law_sorted_tables(found, e.tables, 0);
    law_rows_of_a_log(entries);
    assert(records_of(nothing) == none);
    lemma_merge(nothing, rows);
    lemma_records_of_sorted(e.rows);
    assert(records_of(e.rows) == apply(none, rows));
    assert forall|i: int|
        0 <= i < entries.len() && (forall|j: int|
            i < j < entries.len() ==> (#[trigger] entries[j]).key != entries[i].key)
        implies e.rows.contains(
        (
            (#[trigger] entries[i]).key,
            if entries[i].op == WalOp::Put {
                Some(entries[i].value)
            } else {
                None
            },
        ),
    ) by {
        let key = entries[i].key;
        law_last_row_wins(none, rows, key);
        assert(rows[i].0 == key);
        assert forall|j: int| i < j < rows.len() implies (#[trigger] rows[j]).0 != key by {
            assert(entries[j].key != key);
        }
        assert(records_of(e.rows).contains_key(key) && records_of(e.rows)[key] == rows[i].1);
        assert(has_key(e.rows, key));
        let k = choose|k: int| 0 <= k < e.rows.len() && #[trigger] e.rows[k].0 == key;
        assert(records_of(e.rows)[e.rows[k].0] == e.rows[k].1);
        assert(e.rows[k] == (key, rows[i].1));
    }
    assert forall|i: int| 0 <= i < e.rows.len() implies exists|j: int|
        0 <= j < entries.len() && (#[trigger] entries[j]).key == (#[trigger] e.rows[i]).0 by {
        let key = e.rows[i].0;
        law_last_row_wins(none, rows, key);
        assert(records_of(e.rows).contains_key(key));
        let j = choose|j: int| 0 <= j < rows.len() && (#[trigger] rows[j]).0 == key;
        assert(entries[j].key == key);
    }
}

/// Steps of flushes and writes are spoken of as they are.
pub proof fn law_view_of_steps(
    flush: FlushOp,
    write: WriteOp,
    action: Action,
    metadata: Option<SstableMetadata>,
    error: StorageError,
)
    ensures
        flush matches FlushOp::Writing { metadata, path } ==> flush@ == FlushView::Writing(
            metadata@,
            path@,
        ),
        flush matches FlushOp::Loading { metadata, path } ==> flush@ == FlushView::Loading(
            metadata@,
            path@,
        ),
        flush matches FlushOp::Resetting { metadata, reader } ==> flush@ == FlushView::Resetting(
            metadata@,
            reader@,
        ),
        write matches WriteOp::Appending { entry } ==> write@ == WriteView::Appending(entry@),
        write matches WriteOp::Syncing { entry } ==> write@ == WriteView::Syncing(entry@),
        write matches WriteOp::Flushing { flush } ==> write@ == WriteView::Flushing(flush@),
        flush_step(Step::Perform(flush, action)) == StepView::<
            FlushView,
            Option<MetadataView>,
        >::Perform(flush@, action@),
        flush_step(Step::Done(Ok(metadata))) == StepView::<FlushView, Option<MetadataView>>::Done(
            Ok(
                match metadata {
                    Some(found) => Some(found@),
                    None => None,
                },
            ),
        ),
        flush_step(Step::Done(Err(error))) == StepView::<FlushView, Option<MetadataView>>::Done(
            Err(error@),
        ),
        write_step(Step::Perform(write, action)) == StepView::<WriteView, ()>::Perform(
            write@,
            action@,
        ),
        write_step(Step::Done(Ok(()))) == StepView::<WriteView, ()>::Done(Ok(())),
        write_step(Step::Done(Err(error))) == StepView::<WriteView, ()>::Done(Err(error@)),
{
}

/// Steps of lookups and scans are spoken of as they are.
pub proof fn law_view_of_reads(
    get: GetOp,
    scan: ScanOp,
    action: Action,
    value: Vec<u8>,
    pairs: Vec<(Vec<u8>, Vec<u8>)>,
    error: StorageError,
)
    ensures
        get_step(Step::Perform(get, action)) == StepView::<(), Option<Seq<u8>>>::Perform(
            (),
            action@,
        ),
        get_step(Step::Done(Ok(Some(value)))) == StepView::<(), Option<Seq<u8>>>::Done(
            Ok(Some(value@)),
        ),
        get_step(Step::Done(Ok(None))) == StepView::<(), Option<Seq<u8>>>::Done(Ok(None)),
        get_step(Step::Done(Err(error))) == StepView::<(), Option<Seq<u8>>>::Done(Err(error@)),
        value_outcome(Ok(Some(value))) == Ok::<Option<Seq<u8>>, ErrorView>(Some(value@)),
        value_outcome(Ok(None)) == Ok::<Option<Seq<u8>>, ErrorView>(None),
        value_outcome(Err(error)) == Err::<Option<Seq<u8>>, ErrorView>(error@),
        scan_step(Step::Perform(scan, action)) == StepView::<
            ScanView,
            Seq<(Seq<u8>, Seq<u8>)>,
        >::Perform(scan@, action@),
        scan_step(Step::Done(Ok(pairs))) == StepView::<ScanView, Seq<(Seq<u8>, Seq<u8>)>>::Done(
            Ok(pairs_of(pairs@)),
        ),
        scan_step(Step::Done(Err(error))) == StepView::<ScanView, Seq<(Seq<u8>, Seq<u8>)>>::Done(
            Err(error@),
        ),
{
}

/// Steps of compactions are spoken of as they are.
pub proof fn law_view_of_compactions(
    compact: CompactOp,
    action: Action,
    report: CompactionReport,
    paths: Seq<String>,
    reader: SstableReader,
    error: StorageError,
)
    ensures
        compact_step(Step::Perform(compact, action)) == StepView::<
            CompactView,
            CompactionReport,
        >::Perform(compact@, action@),
        compact_step(Step::Done(Ok(report))) == StepView::<CompactView, CompactionReport>::Done(
            Ok(report),
        ),
        compact_step(Step::Done(Err(error))) == StepView::<CompactView, CompactionReport>::Done(
            Err(error@),
        ),
        compact matches CompactOp::Reading { flushed, at, merged } ==> compact@
            == (CompactView::Reading { flushed, at: at as nat, merged: merged.rows() }),
        compact matches CompactOp::Writing { report, path, old_paths } ==> compact@
            == (CompactView::Writing { report, path: path@, old_paths: texts_of(old_paths@) }),
        compact matches CompactOp::Loading { report, path, old_paths } ==> compact@
            == (CompactView::Loading { report, path: path@, old_paths: texts_of(old_paths@) }),
        texts_of(paths).len() == paths.len(),
        forall|i: int| 0 <= i < paths.len() ==> #[trigger] texts_of(paths)[i] == paths[i]@,
        table_view(Some(reader)) == Some(reader@),
        table_view(None) is None,
{
}

} // verus!
