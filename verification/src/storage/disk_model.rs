//! A disk that does what it is told, and operations that run on it to their end.
use vstd::prelude::*;

use crate::storage::compaction::CompactionReport;
use crate::storage::error::{ErrorView, IoErrorKind};
use crate::storage::paths::wal_path_spec;
use crate::storage::rows::with_prefix;
use crate::storage::sstable::{read_rows, tail, MetadataView};
use crate::storage::steps::{
    compact_fits, compact_next, flush_fits, flush_next, get_end, get_start, merge, scan_from,
    scan_next, scan_start, write_fits, write_next, ActionView, CompactView, EngineView, FlushView,
    ScanView, StepView, WriteView,
};
use crate::storage::table_format::record_span_spec;

verus! {

// A disk.

/// The log of an engine on a disk.
pub open spec fn log_on(disk: Map<Seq<char>, Seq<u8>>, data_dir: Seq<char>) -> Seq<u8> {
    let path = wal_path_spec(data_dir);
    if disk.contains_key(path) {
        disk[path]
    } else {
        Seq::empty()
    }
}

/// The bytes of the row that begins at an offset, or all behind it where the row
/// is not whole.
pub open spec fn record_bytes(file: Seq<u8>, offset: u64) -> Seq<u8> {
    let rest = tail(file, offset);
    if rest.len() >= 9 && record_span_spec(rest) <= rest.len() {
        rest.take(record_span_spec(rest) as int)
    } else {
        rest
    }
}

/// The answer of a disk that does not have a file.
pub open spec fn missing() -> Result<Seq<u8>, ErrorView> {
    Err(ErrorView::Io(IoErrorKind::NotFound, Seq::empty()))
}

/// The outcome of what the machine has no number for: a file that is too long, or a
/// step whose count does not fit.
pub open spec fn stopped<T>() -> Result<T, ErrorView> {
    Err(ErrorView::Io(IoErrorKind::Other, Seq::empty()))
}

/// What an action does on a disk: the disk behind it, and how it went.
pub open spec fn perform(
    disk: Map<Seq<char>, Seq<u8>>,
    data_dir: Seq<char>,
    action: ActionView,
) -> (Map<Seq<char>, Seq<u8>>, Result<Seq<u8>, ErrorView>) {
    let wal = wal_path_spec(data_dir);
    match action {
        ActionView::AppendWal(record) => (
            disk.insert(wal, log_on(disk, data_dir) + record),
            Ok(Seq::empty()),
        ),
        ActionView::SyncWal => (disk, Ok(Seq::empty())),
        ActionView::ResetWal => (disk.insert(wal, Seq::empty()), Ok(Seq::empty())),
        ActionView::WriteTable(path, contents) => if contents.len() <= u64::MAX {
            (disk.insert(path, contents), Ok(Seq::empty()))
        } else {
            (disk, stopped())
        },
        ActionView::ReadTable(path) => (
            disk,
            if disk.contains_key(path) {
                Ok(disk[path])
            } else {
                missing()
            },
        ),
        ActionView::ReadRecord(path, offset) => (
            disk,
            if disk.contains_key(path) {
                Ok(record_bytes(disk[path], offset))
            } else {
                missing()
            },
        ),
        ActionView::RemoveFile(path) => (
            disk.remove(path),
            if disk.contains_key(path) {
                Ok(Seq::empty())
            } else {
                missing()
            },
        ),
    }
}

// Running an operation. A run ends in failure at a step whose counts the machine has
// no numbers for.

/// How many steps a flush still takes.
pub open spec fn flush_left(step: StepView<FlushView, Option<MetadataView>>) -> nat {
    match step {
        StepView::Done(_) => 0,
        StepView::Perform(FlushView::Resetting(..), _) => 1,
        StepView::Perform(FlushView::Loading(..), _) => 2,
        StepView::Perform(FlushView::Writing(..), _) => 3,
    }
}

/// A flush, run to its end.
pub open spec fn run_flush(
    e: EngineView,
    disk: Map<Seq<char>, Seq<u8>>,
    step: StepView<FlushView, Option<MetadataView>>,
) -> (EngineView, Map<Seq<char>, Seq<u8>>, Result<Option<MetadataView>, ErrorView>)
    decreases flush_left(step),
{
    match step {
        StepView::Done(result) => (e, disk, result),
        StepView::Perform(flush, action) => {
            let (disk2, event) = perform(disk, e.data_dir, action);
            if flush_fits(e, flush) {
                let (e2, step2) = flush_next(e, flush, event);
                run_flush(e2, disk2, step2)
            } else {
                (e, disk2, stopped())
            }
        },
    }
}

/// How many steps a write still takes.
pub open spec fn write_left(step: StepView<WriteView, ()>) -> nat {
    match step {
        StepView::Done(_) => 0,
        StepView::Perform(WriteView::Flushing(flush), action) => flush_left(
            StepView::Perform(flush, action),
        ),
        StepView::Perform(WriteView::Syncing(_), _) => 4,
        StepView::Perform(WriteView::Appending(_), _) => 5,
    }
}

/// A write, run to its end.
pub open spec fn run_write(
    e: EngineView,
    disk: Map<Seq<char>, Seq<u8>>,
    step: StepView<WriteView, ()>,
) -> (EngineView, Map<Seq<char>, Seq<u8>>, Result<(), ErrorView>)
    decreases write_left(step),
{
    match step {
        StepView::Done(result) => (e, disk, result),
        StepView::Perform(write, action) => {
            let (disk2, event) = perform(disk, e.data_dir, action);
            if write_fits(e, write) {
                let (e2, step2) = write_next(e, write, event);
                run_write(e2, disk2, step2)
            } else {
                (e, disk2, stopped())
            }
        },
    }
}

/// A lookup, run to its end.
pub open spec fn run_get(
    disk: Map<Seq<char>, Seq<u8>>,
    data_dir: Seq<char>,
    step: StepView<(), Option<Seq<u8>>>,
) -> Result<Option<Seq<u8>>, ErrorView> {
    match step {
        StepView::Done(result) => result,
        StepView::Perform(_, action) => get_end(perform(disk, data_dir, action).1),
    }
}

/// How many tables a scan still has before it.
pub open spec fn scan_left(e: EngineView, step: StepView<ScanView, Seq<(Seq<u8>, Seq<u8>)>>) -> nat {
    match step {
        StepView::Done(_) => 0,
        StepView::Perform(scan, _) => if scan.at < e.tables.len() {
            (e.tables.len() - scan.at) as nat
        } else {
            0
        },
    }
}

/// A scan reads a table from where it is on.
pub proof fn lemma_scan_from(e: EngineView, scan: ScanView)
    ensures
        scan_from(e, scan) matches StepView::Perform(next, _) ==> scan.at <= next.at
            < e.tables.len(),
    decreases e.tables.len() - scan.at,
{
    if scan.at < e.tables.len() && with_prefix(
        e.tables[scan.at as int].index,
        scan.prefix,
    ).len() == 0 {
        lemma_scan_from(e, ScanView { at: scan.at + 1, ..scan });
    }
}

/// A scan, run to its end.
pub open spec fn run_scan(
    e: EngineView,
    disk: Map<Seq<char>, Seq<u8>>,
    step: StepView<ScanView, Seq<(Seq<u8>, Seq<u8>)>>,
) -> Result<Seq<(Seq<u8>, Seq<u8>)>, ErrorView>
    decreases scan_left(e, step),
    via run_scan_decreases
{
    match step {
        StepView::Done(result) => result,
        StepView::Perform(scan, action) => if scan.at < e.tables.len() {
            run_scan(e, disk, scan_next(e, scan, perform(disk, e.data_dir, action).1))
        } else {
            Ok(Seq::empty())
        },
    }
}

#[via_fn]
proof fn run_scan_decreases(
    e: EngineView,
    disk: Map<Seq<char>, Seq<u8>>,
    step: StepView<ScanView, Seq<(Seq<u8>, Seq<u8>)>>,
) {
    if let StepView::Perform(scan, action) = step {
        if let Ok(file) = perform(disk, e.data_dir, action).1 {
            if let Ok(rows) = read_rows(
                file,
                with_prefix(e.tables[scan.at as int].index, scan.prefix),
            ) {
                lemma_scan_from(
                    e,
                    ScanView { at: scan.at + 1, merged: merge(scan.merged, rows), ..scan },
                );
            }
        }
    }
}

/// How far a compaction has come, in the large.
pub open spec fn compact_phase(step: StepView<CompactView, CompactionReport>) -> nat {
    match step {
        StepView::Done(_) => 0,
        StepView::Perform(CompactView::Removing { .. }, _) => 1,
        StepView::Perform(CompactView::Loading { .. }, _) => 2,
        StepView::Perform(CompactView::Writing { .. }, _) => 3,
        StepView::Perform(CompactView::Reading { .. }, _) => 4,
        StepView::Perform(CompactView::Flushing(_), _) => 5,
    }
}

/// How far a compaction has come, in the small.
pub open spec fn compact_left(e: EngineView, step: StepView<CompactView, CompactionReport>) -> nat {
    match step {
        StepView::Perform(CompactView::Removing { old_paths, at, .. }, _) => if at
            < old_paths.len() {
            (old_paths.len() - at) as nat
        } else {
            0
        },
        StepView::Perform(CompactView::Reading { at, .. }, _) => if at < e.tables.len() {
            (e.tables.len() - at) as nat
        } else {
            0
        },
        StepView::Perform(CompactView::Flushing(flush), action) => flush_left(
            StepView::Perform(flush, action),
        ),
        _ => 0,
    }
}

/// A compaction, run to its end.
pub open spec fn run_compact(
    e: EngineView,
    disk: Map<Seq<char>, Seq<u8>>,
    step: StepView<CompactView, CompactionReport>,
) -> (EngineView, Map<Seq<char>, Seq<u8>>, Result<CompactionReport, ErrorView>)
    decreases compact_phase(step), compact_left(e, step),
{
    match step {
        StepView::Done(result) => (e, disk, result),
        StepView::Perform(compact, action) => {
            let (disk2, event) = perform(disk, e.data_dir, action);
            if compact_fits(e, compact) && e.tables.len() <= usize::MAX {
                let (e2, step2) = compact_next(e, compact, event);
                run_compact(e2, disk2, step2)
            } else {
                (e, disk2, stopped())
            }
        },
    }
}

/// What a lookup of a key gives.
pub open spec fn lookup(e: EngineView, disk: Map<Seq<char>, Seq<u8>>, key: Seq<u8>) -> Result<
    Option<Seq<u8>>,
    ErrorView,
> {
    run_get(disk, e.data_dir, get_start(e, key))
}

/// What a scan of the keys with a prefix gives.
pub open spec fn scanned(
    e: EngineView,
    disk: Map<Seq<char>, Seq<u8>>,
    prefix: Seq<u8>,
    limit: nat,
) -> Result<Seq<(Seq<u8>, Seq<u8>)>, ErrorView> {
    run_scan(e, disk, scan_start(e, prefix, limit))
}

/// Whether two engines, each on its disk, give the same answers to all lookups and
/// scans.
pub open spec fn same_answers(
    e: EngineView,
    disk: Map<Seq<char>, Seq<u8>>,
    e2: EngineView,
    disk2: Map<Seq<char>, Seq<u8>>,
) -> bool {
    &&& forall|key: Seq<u8>| #[trigger] lookup(e2, disk2, key) == lookup(e, disk, key)
    &&& forall|prefix: Seq<u8>, limit: nat| #[trigger]
        scanned(e2, disk2, prefix, limit) == scanned(e, disk, prefix, limit)
}

} // verus!
