//! What the engine does, step by step.
//!
//! An operation that needs the disk runs in steps. A step either ends the
//! operation or asks for one [`Action`]; whoever drives the operation performs the
//! action and hands back how it went, and the next step goes on from there.
use vstd::prelude::*;

use crate::storage::compaction::CompactionReport;
use crate::storage::error::{ErrorView, IoError, IoErrorKind, StorageError};
use crate::storage::memtable::total_size;
use crate::storage::paths::sstable_path_spec;
use crate::storage::rows::{
    apply, as_records, at_most, listing, live_rows, no_empty_key, records_of, sorted, with_prefix,
};
use crate::storage::sstable::{
    find_spec, metadata_of, read_rows, table_spec, write_spec, MetadataView, TableView,
};
use crate::storage::table_format::decode_data_spec;
use crate::storage::wal::{record_spec, EntryView, WalOp};

verus! {

/// Something to do on the disk.
#[derive(Debug)]
pub enum Action {
    /// Append a record to the log.
    AppendWal { record: Vec<u8> },
    /// Make sure that the log is on the disk.
    SyncWal,
    /// Empty the log.
    ResetWal,
    /// Put a table file in place, all of it or nothing.
    WriteTable { path: String, contents: Vec<u8> },
    /// Read a table file.
    ReadTable { path: String },
    /// Read the row that begins at an offset of a table file.
    ReadRecord { path: String, offset: u64 },
    /// Remove a file.
    RemoveFile { path: String },
}

/// An action as contracts speak of it.
pub enum ActionView {
    AppendWal(Seq<u8>),
    SyncWal,
    ResetWal,
    WriteTable(Seq<char>, Seq<u8>),
    ReadTable(Seq<char>),
    ReadRecord(Seq<char>, u64),
    RemoveFile(Seq<char>),
}

impl View for Action {
    type V = ActionView;

    open spec fn view(&self) -> ActionView {
        match self {
            Action::AppendWal { record } => ActionView::AppendWal(record@),
            Action::SyncWal => ActionView::SyncWal,
            Action::ResetWal => ActionView::ResetWal,
            Action::WriteTable { path, contents } => ActionView::WriteTable(path@, contents@),
            Action::ReadTable { path } => ActionView::ReadTable(path@),
            Action::ReadRecord { path, offset } => ActionView::ReadRecord(path@, *offset),
            Action::RemoveFile { path } => ActionView::RemoveFile(path@),
        }
    }
}

/// How an action went: what was read, and nothing where nothing was; or why it
/// failed.
pub open spec fn event_view(event: Result<Vec<u8>, IoError>) -> Result<Seq<u8>, ErrorView> {
    match event {
        Ok(bytes) => Ok(bytes@),
        Err(error) => Err(ErrorView::Io(error.kind, error.message@)),
    }
}

/// A step of an operation: an action, and the operation that goes on when it was
/// performed; or the end.
#[derive(Debug)]
pub enum Step<P, T> {
    Perform(P, Action),
    Done(Result<T, StorageError>),
}

/// A step as contracts speak of it.
pub enum StepView<P, T> {
    Perform(P, ActionView),
    Done(Result<T, ErrorView>),
}

/// An engine as contracts speak of it: its configuration, the rows that are in no
/// table yet, its tables from the oldest to the newest, and the number of the
/// next table.
#[verifier::ext_equal]
pub struct EngineView {
    pub data_dir: Seq<char>,
    pub threshold: nat,
    pub sync_writes: bool,
    pub rows: Seq<(Seq<u8>, Option<Seq<u8>>)>,
    pub tables: Seq<TableView>,
    pub next_id: u64,
}

impl EngineView {
    /// The rows are in strict key order and without the empty key; each table can be
    /// used; and the tables stand in the order of their numbers, all below the next.
    pub open spec fn wf(self) -> bool {
        &&& sorted(self.rows)
        &&& no_empty_key(self.rows)
        &&& forall|i: int| 0 <= i < self.tables.len() ==> (#[trigger] self.tables[i]).wf()
        &&& forall|i: int, j: int|
            0 <= i < j < self.tables.len() ==> (#[trigger] self.tables[i]).id <= (
            #[trigger] self.tables[j]).id
        &&& forall|i: int|
            0 <= i < self.tables.len() ==> (#[trigger] self.tables[i]).id < self.next_id
    }
}

/// Rows in key order after more were written to them, one after the other.
pub open spec fn merge(
    rows: Seq<(Seq<u8>, Option<Seq<u8>>)>,
    more: Seq<(Seq<u8>, Option<Seq<u8>>)>,
) -> Seq<(Seq<u8>, Option<Seq<u8>>)> {
    listing(apply(records_of(rows), more))
}

/// The refusal of an empty key.
pub open spec fn empty_key_error() -> ErrorView {
    ErrorView::InvalidInput("keys must not be empty"@)
}

// Flushing the rows to a table.

/// A flush under way.
pub enum FlushView {
    /// The table is being written.
    Writing(MetadataView, Seq<char>),
    /// The table is being read back.
    Loading(MetadataView, Seq<char>),
    /// The log is being emptied.
    Resetting(MetadataView, TableView),
}

/// How a flush begins.
pub open spec fn flush_start(e: EngineView) -> StepView<FlushView, Option<MetadataView>> {
    let path = sstable_path_spec(e.data_dir, e.next_id);
    if e.rows.len() == 0 {
        StepView::Done(Ok(None))
    } else {
        match write_spec(e.rows) {
            Err(error) => StepView::Done(Err(error)),
            Ok(contents) => StepView::Perform(
                FlushView::Writing(metadata_of(e.next_id, e.rows), path),
                ActionView::WriteTable(path, contents),
            ),
        }
    }
}

/// How a flush goes on. The engine changes when the log was emptied, and only
/// then.
pub open spec fn flush_next(
    e: EngineView,
    flush: FlushView,
    event: Result<Seq<u8>, ErrorView>,
) -> (EngineView, StepView<FlushView, Option<MetadataView>>) {
    match event {
        Err(error) => (e, StepView::Done(Err(error))),
        Ok(bytes) => match flush {
            FlushView::Writing(metadata, path) => (
                e,
                StepView::Perform(FlushView::Loading(metadata, path), ActionView::ReadTable(path)),
            ),
            FlushView::Loading(metadata, path) => match table_spec(path, bytes) {
                Err(error) => (e, StepView::Done(Err(error))),
                Ok(table) => (
                    e,
                    StepView::Perform(
                        FlushView::Resetting(metadata, table),
                        ActionView::ResetWal,
                    ),
                ),
            },
            FlushView::Resetting(metadata, table) => (
                EngineView {
                    rows: Seq::empty(),
                    tables: e.tables.push(table),
                    next_id: (e.next_id + 1) as u64,
                    ..e
                },
                StepView::Done(Ok(Some(metadata))),
            ),
        },
    }
}

/// Whether a flush is one of this engine: its table is the next.
pub open spec fn flush_ready(e: EngineView, flush: FlushView) -> bool {
    match flush {
        FlushView::Writing(_, path) => path == sstable_path_spec(e.data_dir, e.next_id),
        FlushView::Loading(_, path) => path == sstable_path_spec(e.data_dir, e.next_id),
        FlushView::Resetting(_, table) => table.id == e.next_id,
    }
}

/// Whether there is a number behind that of the table that ends the flush.
pub open spec fn flush_fits(e: EngineView, flush: FlushView) -> bool {
    flush is Resetting ==> e.next_id < u64::MAX
}

// Writing a key.

/// A write under way.
pub enum WriteView {
    /// The entry is being logged.
    Appending(EntryView),
    /// The log is being brought to the disk.
    Syncing(EntryView),
    /// The entry is in place, and the rows are being flushed.
    Flushing(FlushView),
}

/// The record that an entry gives its key.
pub open spec fn record_of(entry: EntryView) -> Option<Seq<u8>> {
    match entry.op {
        WalOp::Put => Some(entry.value),
        WalOp::Delete => None,
    }
}

/// The row that an entry writes.
pub open spec fn row_of(entry: EntryView) -> (Seq<u8>, Option<Seq<u8>>) {
    (entry.key, record_of(entry))
}

/// How a write begins.
pub open spec fn write_start(e: EngineView, entry: EntryView) -> StepView<WriteView, ()> {
    if entry.key.len() == 0 {
        StepView::Done(Err(empty_key_error()))
    } else {
        match record_spec(entry) {
            Err(error) => StepView::Done(Err(error)),
            Ok(record) => StepView::Perform(
                WriteView::Appending(entry),
                ActionView::AppendWal(record),
            ),
        }
    }
}

/// A step of a flush as a step of the write that it belongs to.
pub open spec fn flush_in_write(step: StepView<FlushView, Option<MetadataView>>) -> StepView<
    WriteView,
    (),
> {
    match step {
        StepView::Perform(flush, action) => StepView::Perform(WriteView::Flushing(flush), action),
        StepView::Done(Ok(_)) => StepView::Done(Ok(())),
        StepView::Done(Err(error)) => StepView::Done(Err(error)),
    }
}

/// An engine with an entry among its rows.
pub open spec fn with_entry(e: EngineView, entry: EntryView) -> EngineView {
    EngineView { rows: listing(records_of(e.rows).insert(entry.key, record_of(entry))), ..e }
}

/// What is done when an entry was logged: it takes its place, and the rows are
/// flushed if they have reached the threshold.
pub open spec fn commit(e: EngineView, entry: EntryView) -> (EngineView, StepView<WriteView, ()>) {
    let after = with_entry(e, entry);
    if total_size(after.rows) >= e.threshold {
        (after, flush_in_write(flush_start(after)))
    } else {
        (after, StepView::Done(Ok(())))
    }
}

/// How a write goes on.
pub open spec fn write_next(
    e: EngineView,
    write: WriteView,
    event: Result<Seq<u8>, ErrorView>,
) -> (EngineView, StepView<WriteView, ()>) {
    match write {
        WriteView::Flushing(flush) => {
            let (after, step) = flush_next(e, flush, event);
            (after, flush_in_write(step))
        },
        WriteView::Appending(entry) => match event {
            Err(error) => (e, StepView::Done(Err(error))),
            Ok(_) => if e.sync_writes {
                (e, StepView::Perform(WriteView::Syncing(entry), ActionView::SyncWal))
            } else {
                commit(e, entry)
            },
        },
        WriteView::Syncing(entry) => match event {
            Err(error) => (e, StepView::Done(Err(error))),
            Ok(_) => commit(e, entry),
        },
    }
}

/// Whether a write is one of this engine: its entry has a key, and its flush is one of
/// this engine.
pub open spec fn write_ready(e: EngineView, write: WriteView) -> bool {
    match write {
        WriteView::Appending(entry) => entry.key.len() > 0,
        WriteView::Syncing(entry) => entry.key.len() > 0,
        WriteView::Flushing(flush) => flush_ready(e, flush),
    }
}

/// Whether the rows can be counted with the entry among them, and whether there
/// is a number for the table of a flush.
pub open spec fn write_fits(e: EngineView, write: WriteView) -> bool {
    match write {
        WriteView::Appending(entry) => entry_fits(e, entry),
        WriteView::Syncing(entry) => entry_fits(e, entry),
        WriteView::Flushing(flush) => flush_fits(e, flush),
    }
}

/// Whether the size of the rows with the entry among them is a number that the
/// machine holds.
pub open spec fn entry_fits(e: EngineView, entry: EntryView) -> bool {
    total_size(e.rows) + crate::storage::memtable::row_size(row_of(entry)) <= usize::MAX
}

// Reading a key.

/// The path of the newest table with a record of the key, and where the record
/// begins.
pub open spec fn newest(tables: Seq<TableView>, key: Seq<u8>) -> Option<(Seq<char>, u64)>
    decreases tables.len(),
{
    if tables.len() == 0 {
        None
    } else {
        match find_spec(tables.last(), key) {
            Some(offset) => Some((tables.last().path, offset)),
            None => newest(tables.drop_last(), key),
        }
    }
}

/// How a lookup begins.
pub open spec fn get_start(e: EngineView, key: Seq<u8>) -> StepView<(), Option<Seq<u8>>> {
    if key.len() == 0 {
        StepView::Done(Err(empty_key_error()))
    } else if records_of(e.rows).contains_key(key) {
        StepView::Done(Ok(records_of(e.rows)[key]))
    } else {
        match newest(e.tables, key) {
            None => StepView::Done(Ok(None)),
            Some((path, offset)) => StepView::Perform((), ActionView::ReadRecord(path, offset)),
        }
    }
}

/// How a lookup ends, given the bytes of the row that was read.
pub open spec fn get_end(event: Result<Seq<u8>, ErrorView>) -> Result<Option<Seq<u8>>, ErrorView> {
    match event {
        Err(error) => Err(error),
        Ok(bytes) => match decode_data_spec(bytes) {
            Err(error) => Err(error),
            Ok(row) => Ok(row.1),
        },
    }
}

// Reading the keys with a prefix.

/// A scan under way: table `at` is being read, and `merged` is what the tables
/// before it gave.
pub struct ScanView {
    pub prefix: Seq<u8>,
    pub limit: nat,
    pub at: nat,
    pub merged: Seq<(Seq<u8>, Option<Seq<u8>>)>,
}

/// How a scan goes on at a table: the next table with a key that has the prefix
/// is read; behind the last the rows of the engine come in, and what was not
/// deleted is the result.
pub open spec fn scan_from(e: EngineView, scan: ScanView) -> StepView<
    ScanView,
    Seq<(Seq<u8>, Seq<u8>)>,
>
    decreases e.tables.len() - scan.at,
{
    if scan.at >= e.tables.len() {
        StepView::Done(
            Ok(
                at_most(
                    live_rows(merge(scan.merged, with_prefix(e.rows, scan.prefix))),
                    scan.limit,
                ),
            ),
        )
    } else if with_prefix(e.tables[scan.at as int].index, scan.prefix).len() > 0 {
        StepView::Perform(scan, ActionView::ReadTable(e.tables[scan.at as int].path))
    } else {
        scan_from(e, ScanView { at: scan.at + 1, ..scan })
    }
}

/// How a scan begins.
pub open spec fn scan_start(e: EngineView, prefix: Seq<u8>, limit: nat) -> StepView<
    ScanView,
    Seq<(Seq<u8>, Seq<u8>)>,
> {
    scan_from(e, ScanView { prefix, limit, at: 0, merged: Seq::empty() })
}

/// How a scan goes on with a table's file.
pub open spec fn scan_next(
    e: EngineView,
    scan: ScanView,
    event: Result<Seq<u8>, ErrorView>,
) -> StepView<ScanView, Seq<(Seq<u8>, Seq<u8>)>> {
    match event {
        Err(error) => StepView::Done(Err(error)),
        Ok(file) => match read_rows(
            file,
            with_prefix(e.tables[scan.at as int].index, scan.prefix),
        ) {
            Err(error) => StepView::Done(Err(error)),
            Ok(rows) => scan_from(
                e,
                ScanView { at: scan.at + 1, merged: merge(scan.merged, rows), ..scan },
            ),
        },
    }
}

// Compaction.

/// A compaction under way.
pub enum CompactView {
    /// The rows are being flushed.
    Flushing(FlushView),
    /// Table `at` is being read, and `merged` is what the tables before it gave.
    Reading { flushed: bool, at: nat, merged: Seq<(Seq<u8>, Option<Seq<u8>>)> },
    /// The new table is being written.
    Writing { report: CompactionReport, path: Seq<char>, old_paths: Seq<Seq<char>> },
    /// The new table is being read back.
    Loading { report: CompactionReport, path: Seq<char>, old_paths: Seq<Seq<char>> },
    /// The old tables are being removed, number `at` now.
    Removing {
        report: CompactionReport,
        table: Option<TableView>,
        old_paths: Seq<Seq<char>>,
        at: nat,
    },
}

/// How many entries tables have together.
pub open spec fn total_entries(tables: Seq<TableView>) -> nat
    decreases tables.len(),
{
    if tables.len() == 0 {
        0
    } else {
        total_entries(tables.drop_last()) + tables.last().index.len()
    }
}

/// Where tables are.
pub open spec fn paths_of(tables: Seq<TableView>) -> Seq<Seq<char>> {
    tables.map_values(|table: TableView| table.path)
}

/// How a compaction goes on when there is nothing left to flush.
pub open spec fn compact_read(e: EngineView, flushed: bool) -> StepView<
    CompactView,
    CompactionReport,
> {
    if e.tables.len() == 0 {
        StepView::Done(
            Ok(
                CompactionReport {
                    flushed_memtable: flushed,
                    input_sstables: 0,
                    output_sstables: 0,
                    input_entries: 0,
                    output_entries: 0,
                    dropped_entries: 0,
                },
            ),
        )
    } else {
        StepView::Perform(
            CompactView::Reading { flushed, at: 0, merged: Seq::empty() },
            ActionView::ReadTable(e.tables[0].path),
        )
    }
}

/// A step of a flush as a step of the compaction that it belongs to.
pub open spec fn flush_in_compaction(
    e: EngineView,
    step: StepView<FlushView, Option<MetadataView>>,
) -> StepView<CompactView, CompactionReport> {
    match step {
        StepView::Perform(flush, action) => StepView::Perform(
            CompactView::Flushing(flush),
            action,
        ),
        StepView::Done(Ok(metadata)) => compact_read(e, metadata is Some),
        StepView::Done(Err(error)) => StepView::Done(Err(error)),
    }
}

/// How a compaction begins.
pub open spec fn compact_start(e: EngineView) -> StepView<CompactView, CompactionReport> {
    flush_in_compaction(e, flush_start(e))
}

/// What a compaction reports whose tables gave the rows `merged`.
pub open spec fn report_of(
    e: EngineView,
    flushed: bool,
    merged: Seq<(Seq<u8>, Option<Seq<u8>>)>,
) -> CompactionReport {
    let input = total_entries(e.tables);
    let output = live_rows(merged).len();
    CompactionReport {
        flushed_memtable: flushed,
        input_sstables: e.tables.len() as usize,
        output_sstables: if output == 0 {
            0
        } else {
            1
        },
        input_entries: input as u64,
        output_entries: output as u64,
        dropped_entries: if input >= output {
            (input - output) as u64
        } else {
            0
        },
    }
}

/// How a compaction goes on when the tables gave the rows `merged`: the tables are
/// let go of; if any row was not deleted, those are written to a new one.
pub open spec fn compact_write(
    e: EngineView,
    flushed: bool,
    merged: Seq<(Seq<u8>, Option<Seq<u8>>)>,
) -> (EngineView, StepView<CompactView, CompactionReport>) {
    let output = as_records(live_rows(merged));
    let report = report_of(e, flushed, merged);
    let old_paths = paths_of(e.tables);
    let after = EngineView { tables: Seq::empty(), ..e };
    let path = sstable_path_spec(e.data_dir, e.next_id);
    if output.len() == 0 {
        (
            after,
            StepView::Perform(
                CompactView::Removing { report, table: None, old_paths, at: 0 },
                ActionView::RemoveFile(old_paths[0]),
            ),
        )
    } else {
        match write_spec(output) {
            Err(error) => (after, StepView::Done(Err(error))),
            Ok(contents) => (
                after,
                StepView::Perform(
                    CompactView::Writing { report, path, old_paths },
                    ActionView::WriteTable(path, contents),
                ),
            ),
        }
    }
}

/// Whether removing a file failed. That it was gone already is no failure.
pub open spec fn removal_error(event: Result<Seq<u8>, ErrorView>) -> Option<ErrorView> {
    match event {
        Ok(_) => None,
        Err(ErrorView::Io(IoErrorKind::NotFound, _)) => None,
        Err(error) => Some(error),
    }
}

/// How a compaction goes on.
pub open spec fn compact_next(
    e: EngineView,
    compact: CompactView,
    event: Result<Seq<u8>, ErrorView>,
) -> (EngineView, StepView<CompactView, CompactionReport>) {
    match compact {
        CompactView::Flushing(flush) => {
            let (after, step) = flush_next(e, flush, event);
            (after, flush_in_compaction(after, step))
        },
        CompactView::Reading { flushed, at, merged } => match event {
            Err(error) => (e, StepView::Done(Err(error))),
            Ok(file) => match read_rows(file, e.tables[at as int].index) {
                Err(error) => (e, StepView::Done(Err(error))),
                Ok(rows) => if at + 1 < e.tables.len() {
                    (
                        e,
                        StepView::Perform(
                            CompactView::Reading {
                                flushed,
                                at: at + 1,
                                merged: merge(merged, rows),
                            },
                            ActionView::ReadTable(e.tables[at as int + 1].path),
                        ),
                    )
                } else {
                    compact_write(e, flushed, merge(merged, rows))
                },
            },
        },
        CompactView::Writing { report, path, old_paths } => match event {
            Err(error) => (e, StepView::Done(Err(error))),
            Ok(_) => (
                e,
                StepView::Perform(
                    CompactView::Loading { report, path, old_paths },
                    ActionView::ReadTable(path),
                ),
            ),
        },
        CompactView::Loading { report, path, old_paths } => match event {
            Err(error) => (e, StepView::Done(Err(error))),
            Ok(file) => match table_spec(path, file) {
                Err(error) => (e, StepView::Done(Err(error))),
                Ok(table) => (
                    e,
                    StepView::Perform(
                        CompactView::Removing { report, table: Some(table), old_paths, at: 0 },
                        ActionView::RemoveFile(old_paths[0]),
                    ),
                ),
            },
        },
        CompactView::Removing { report, table, old_paths, at } => match removal_error(event) {
            Some(error) => (e, StepView::Done(Err(error))),
            None => if at + 1 < old_paths.len() {
                (
                    e,
                    StepView::Perform(
                        CompactView::Removing { report, table, old_paths, at: at + 1 },
                        ActionView::RemoveFile(old_paths[at as int + 1]),
                    ),
                )
            } else {
                match table {
                    None => (e, StepView::Done(Ok(report))),
                    Some(table) => (
                        EngineView {
                            tables: e.tables.push(table),
                            next_id: (e.next_id + 1) as u64,
                            ..e
                        },
                        StepView::Done(Ok(report)),
                    ),
                }
            },
        },
    }
}

/// Whether a compaction is one of this engine: it is at a table that there is, and its
/// new table is the next.
pub open spec fn compact_ready(e: EngineView, compact: CompactView) -> bool {
    match compact {
        CompactView::Flushing(flush) => flush_ready(e, flush),
        CompactView::Reading { at, .. } => at < e.tables.len(),
        CompactView::Writing { path, old_paths, .. } => path == sstable_path_spec(
            e.data_dir,
            e.next_id,
        ) && old_paths.len() > 0,
        CompactView::Loading { path, old_paths, .. } => path == sstable_path_spec(
            e.data_dir,
            e.next_id,
        ) && old_paths.len() > 0,
        CompactView::Removing { table, old_paths, at, .. } => at < old_paths.len()
            && (table is Some ==> table->0.id == e.next_id),
    }
}

/// Whether the entries can be counted, and there is a number behind that of the new
/// table.
pub open spec fn compact_fits(e: EngineView, compact: CompactView) -> bool {
    match compact {
        CompactView::Flushing(flush) => flush_fits(e, flush),
        CompactView::Reading { .. } => total_entries(e.tables) <= u64::MAX,
        CompactView::Removing { table, .. } => table is Some ==> e.next_id < u64::MAX,
        _ => true,
    }
}

// What is spoken of.

/// The number of entries of tables is the sum over all of them of the lengths of their
/// indexes.
pub proof fn law_entries_of_tables(tables: Seq<TableView>)
    ensures
        total_entries(tables) == tables.fold_left(
            0int,
            |sum: int, table: TableView| sum + table.index.len(),
        ),
    decreases tables.len(),
{
    if tables.len() > 0 {
        law_entries_of_tables(tables.drop_last());
    }
}

/// The paths of tables are those of each, in their order.
pub proof fn law_paths_of_tables(tables: Seq<TableView>)
    ensures
        paths_of(tables).len() == tables.len(),
        forall|i: int| 0 <= i < tables.len() ==> #[trigger] paths_of(tables)[i] == tables[i].path,
{
}

/// An action is spoken of as it is: by what is to be written and where, and by what is to
/// be read or removed.
pub proof fn law_view_of_an_action(action: Action)
    ensures
        action matches Action::AppendWal { record } ==> action@ == ActionView::AppendWal(record@),
        action is SyncWal <==> action@ is SyncWal,
        action is ResetWal <==> action@ is ResetWal,
        action matches Action::WriteTable { path, contents } ==> action@ == ActionView::WriteTable(
            path@,
            contents@,
        ),
        action matches Action::ReadTable { path } ==> action@ == ActionView::ReadTable(path@),
        action matches Action::ReadRecord { path, offset } ==> action@ == ActionView::ReadRecord(
            path@,
            offset,
        ),
        action matches Action::RemoveFile { path } ==> action@ == ActionView::RemoveFile(path@),
{
}

/// How an action went is spoken of as it is: by what was read, or by the failure.
pub proof fn law_view_of_an_event(event: Result<Vec<u8>, IoError>)
    ensures
        event matches Ok(bytes) ==> event_view(event) == Ok::<Seq<u8>, ErrorView>(bytes@),
        event matches Err(error) ==> event_view(event) == Err::<Seq<u8>, ErrorView>(
            ErrorView::Io(error.kind, error.message@),
        ),
{
}

/// Removing a file fails for every failure but one: that the file was not there.
pub proof fn law_failures_to_remove(bytes: Seq<u8>, error: ErrorView)
    ensures
        removal_error(Ok(bytes)) is None,
        removal_error(Err(error)) is None <==> (error matches ErrorView::Io(kind, _) && kind
            == IoErrorKind::NotFound),
        removal_error(Err(error)) matches Some(failure) ==> failure == error,
{
}

} // verus!
