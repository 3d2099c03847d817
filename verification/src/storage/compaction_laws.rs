//! What a compaction leaves.
use vstd::prelude::*;

use crate::storage::compaction::CompactionReport;
use crate::storage::disk_model::{
    flush_left, log_on, lookup, perform, run_compact, run_flush, same_answers,
};
use crate::storage::engine::{lemma_table_taken_in, rows_of_log, StorageConfig};
use crate::storage::error::{ErrorView, IoErrorKind};
use crate::storage::flush_laws::{
    after_flush, disk_after_flush, flushable, flushed_table, law_flush_succeeds, lemma_after_flush,
    lemma_flush_runs, lemma_flushed_table,
};
use crate::storage::held::{
    all_read, complete, contents, has_path, is_log, law_clean_log_replays, lemma_paths_apart,
    lemma_readable_reads, lemma_table_is_added, lemma_table_rows, lemma_tables_frame,
    lemma_tables_map_frame, lemma_untouched, lemma_write_elsewhere, log_clean, readable, replays,
    table_file_on, table_reads, table_rows, table_sound, tables_map,
};
use crate::storage::memtable::total_size;
use crate::storage::merging::lemma_merge;
use crate::storage::paths::{
    law_log_is_no_table, law_table_path_names_its_id, sstable_path_spec, wal_path_spec,
};
use crate::storage::read_laws::{
    law_get_returns_contents, lemma_contents_keyed, lemma_contents_listing, lemma_same_live,
    lemma_tables_listing,
};
use crate::storage::recovery_laws::{
    law_reopened_engine_answers_the_same, lemma_opened_tables, opened_on,
};
use crate::storage::rows::{
    apply, as_records, lemma_apply_is_overlay, lemma_as_records, lemma_listing,
    lemma_live_rows_listing, lemma_row_count, listing, live, live_rows, records_of, sorted,
};
use crate::storage::sstable::{
    law_written_table_opens, table_spec, write_spec, MetadataView, TableView,
};
use crate::storage::steps::{
    compact_next, compact_read, compact_start, compact_write, flush_fits, flush_in_compaction,
    flush_next, flush_start, merge, paths_of, report_of, total_entries, ActionView, CompactView,
    EngineView, FlushView, StepView,
};
use crate::storage::wal::EntryView;

verus! {

/// A flush within a compaction runs as it does alone.
proof fn lemma_flush_in_compaction(
    e: EngineView,
    disk: Map<Seq<char>, Seq<u8>>,
    step: StepView<FlushView, Option<MetadataView>>,
)
    requires
        step is Perform ==> e.tables.len() <= usize::MAX,
    ensures
        ({
            let (e2, disk2, result) = run_flush(e, disk, step);
            run_compact(e, disk, flush_in_compaction(e, step)) == match result {
                Ok(metadata) => run_compact(e2, disk2, compact_read(e2, metadata is Some)),
                Err(error) => (e2, disk2, Err::<CompactionReport, ErrorView>(error)),
            }
        }),
    decreases flush_left(step),
{
    if let StepView::Perform(flush, action) = step {
        let (disk2, event) = perform(disk, e.data_dir, action);
        if flush_fits(e, flush) {
            let (e2, step2) = flush_next(e, flush, event);
            lemma_flush_in_compaction(e2, disk2, step2);
        }
    }
}

/// A compaction at a table reads it and all behind it, and goes on with what the
/// tables hold together; or it fails, if the rows of one cannot be read.
proof fn lemma_reading_runs(
    e: EngineView,
    disk: Map<Seq<char>, Seq<u8>>,
    flushed: bool,
    at: nat,
    merged: Seq<(Seq<u8>, Option<Seq<u8>>)>,
)
    requires
        at < e.tables.len() <= usize::MAX,
        total_entries(e.tables) <= u64::MAX,
        sorted(merged),
        records_of(merged) == tables_map(e.tables.take(at as int), disk),
        forall|i: int| 0 <= i < at ==> table_reads(#[trigger] e.tables[i], disk),
    ensures
        ({
            let (e1, step1) = compact_write(e, flushed, listing(tables_map(e.tables, disk)));
            let outcome = run_compact(
                e,
                disk,
                StepView::Perform(
                    CompactView::Reading { flushed, at, merged },
                    ActionView::ReadTable(e.tables[at as int].path),
                ),
            );
            if all_read(e.tables, disk) {
                outcome == run_compact(e1, disk, step1)
            } else {
                outcome.2 is Err
            }
        }),
    decreases e.tables.len() - at,
{
    let table = e.tables[at as int];
    let step = CompactView::Reading { flushed, at, merged };
    let event = perform(disk, e.data_dir, ActionView::ReadTable(table.path)).1;
    let (e2, step2) = compact_next(e, step, event);
    if table_reads(table, disk) {
        let rows = table_rows(table, disk);
        let more = merge(merged, rows);
        lemma_merge(merged, rows);
        lemma_listing(more);
        assert(e.tables.take(at as int + 1).drop_last() =~= e.tables.take(at as int));
        assert(e.tables.take(at as int + 1).last() == table);
        assert forall|i: int| 0 <= i < at + 1 implies table_reads(#[trigger] e.tables[i], disk) by {
        }
        if at + 1 < e.tables.len() {
            lemma_reading_runs(e, disk, flushed, at + 1, more);
        } else {
            assert(e.tables.take(at as int + 1) =~= e.tables);
        }
    } else {
        assert(!all_read(e.tables, disk)) by {
            assert(!table_reads(e.tables[at as int], disk));
        }
        assert(step2 is Done && step2->Done_0 is Err);
        assert(run_compact(e2, disk, step2).2 is Err);
    }
}

/// A disk without some files.
pub open spec fn without(disk: Map<Seq<char>, Seq<u8>>, paths: Seq<Seq<char>>) -> Map<
    Seq<char>,
    Seq<u8>,
> {
    disk.remove_keys(paths.to_set())
}

/// An engine after a compaction gave it a table, or none.
pub open spec fn with_output(e: EngineView, table: Option<TableView>) -> EngineView {
    match table {
        None => e,
        Some(table) => EngineView {
            tables: e.tables.push(table),
            next_id: (e.next_id + 1) as u64,
            ..e
        },
    }
}

/// A compaction that removes the old tables removes them all, and ends well.
proof fn lemma_removing_runs(
    e: EngineView,
    disk: Map<Seq<char>, Seq<u8>>,
    report: CompactionReport,
    table: Option<TableView>,
    old_paths: Seq<Seq<char>>,
    at: nat,
)
    requires
        at < old_paths.len(),
        e.tables.len() <= usize::MAX,
        table is Some ==> e.next_id < u64::MAX,
    ensures
        run_compact(
            e,
            disk,
            StepView::Perform(
                CompactView::Removing { report, table, old_paths, at },
                ActionView::RemoveFile(old_paths[at as int]),
            ),
        ) == (
            with_output(e, table),
            without(disk, old_paths.skip(at as int)),
            Ok::<CompactionReport, ErrorView>(report),
        ),
    decreases old_paths.len() - at,
{
    let path = old_paths[at as int];
    let left = old_paths.skip(at as int);
    let next = old_paths.skip(at as int + 1);
    let disk2 = disk.remove(path);
    assert(left =~= seq![path] + next);
    assert(left.to_set() =~= next.to_set().insert(path)) by {
        assert forall|p: Seq<char>| #[trigger]
            left.to_set().contains(p) <==> next.to_set().insert(path).contains(p) by {
            if left.contains(p) {
                let i = choose|i: int| 0 <= i < left.len() && left[i] == p;
                if i > 0 {
                    assert(next[i - 1] == p);
                }
            }
            if next.contains(p) {
                let i = choose|i: int| 0 <= i < next.len() && next[i] == p;
                assert(left[i + 1] == p);
            }
            assert(left[0] == path);
        }
    }
    assert(without(disk, left) =~= without(disk2, next));
    if at + 1 < old_paths.len() {
        lemma_removing_runs(e, disk2, report, table, old_paths, at + 1);
    } else {
        assert(next =~= Seq::empty());
        assert(without(disk2, next) =~= disk2);
        let (e2, step2) = compact_next(
            e,
            CompactView::Removing { report, table, old_paths, at },
            perform(disk, e.data_dir, ActionView::RemoveFile(path)).1,
        );
        assert(step2 == StepView::<CompactView, CompactionReport>::Done(Ok(report)));
        assert(run_compact(e2, disk2, step2) == (
            e2,
            disk2,
            Ok::<CompactionReport, ErrorView>(report),
        ));
    }
}

/// The rows that a compaction leaves.
pub open spec fn live_output(m: Map<Seq<u8>, Option<Seq<u8>>>) -> Seq<
    (Seq<u8>, Option<Seq<u8>>),
> {
    as_records(listing(live(m)))
}

/// Whether the rows that a compaction leaves fit in a table.
pub open spec fn output_fits(m: Map<Seq<u8>, Option<Seq<u8>>>) -> bool {
    live_output(m).len() > 0 ==> {
        &&& write_spec(live_output(m)) is Ok
        &&& write_spec(live_output(m))->Ok_0.len() <= u64::MAX
    }
}

/// The table that a compaction makes of what an engine's tables hold.
pub open spec fn output_table(e: EngineView, disk: Map<Seq<char>, Seq<u8>>) -> Option<TableView> {
    let output = live_output(tables_map(e.tables, disk));
    if output.len() == 0 {
        None
    } else {
        Some(
            table_spec(
                sstable_path_spec(e.data_dir, e.next_id),
                write_spec(output)->Ok_0,
            )->Ok_0,
        )
    }
}

/// The disk with that table on it.
pub open spec fn with_output_table(e: EngineView, disk: Map<Seq<char>, Seq<u8>>) -> Map<
    Seq<char>,
    Seq<u8>,
> {
    let output = live_output(tables_map(e.tables, disk));
    if output.len() == 0 {
        disk
    } else {
        disk.insert(sstable_path_spec(e.data_dir, e.next_id), write_spec(output)->Ok_0)
    }
}

/// The rows that a compaction leaves, and what they stand for.
pub proof fn lemma_live_output(tables: Seq<TableView>, disk: Map<Seq<char>, Seq<u8>>)
    requires
        all_read(tables, disk),
    ensures
        ({
            let m = tables_map(tables, disk);
            let output = live_output(m);
            &&& output == as_records(live_rows(listing(m)))
            &&& output.len() == live_rows(listing(m)).len()
            &&& output.len() == listing(live(m)).len()
            &&& output.len() <= total_entries(tables)
            &&& sorted(output)
            &&& live(records_of(output)) == live(m)
            &&& forall|key: Seq<u8>| #[trigger]
                records_of(output).contains_key(key) ==> records_of(output)[key] is Some
        }),
{
    let rows = listing(tables_map(tables, disk));
    lemma_tables_listing(tables, disk);
    lemma_live_rows_listing(rows);
    lemma_listing(live_rows(rows));
    lemma_as_records(live_rows(rows));
}

/// The table that a compaction writes is sound once it is on the disk.
pub proof fn lemma_output_table(e: EngineView, disk: Map<Seq<char>, Seq<u8>>)
    requires
        e.wf(),
        output_fits(tables_map(e.tables, disk)),
        live_output(tables_map(e.tables, disk)).len() > 0,
    ensures
        ({
            let output = live_output(tables_map(e.tables, disk));
            let path = sstable_path_spec(e.data_dir, e.next_id);
            let table = output_table(e, disk)->0;
            let disk2 = with_output_table(e, disk);
            &&& table_spec(path, write_spec(output)->Ok_0) == Ok::<TableView, ErrorView>(table)
            &&& table.path == path
            &&& table.id == e.next_id
            &&& table.wf()
            &&& table.index.len() == output.len()
            &&& table_sound(table, disk2)
            &&& table_rows(table, disk2) == output
            &&& readable(e, disk) ==> readable(e, disk2)
            &&& tables_map(e.tables, disk2) == tables_map(e.tables, disk)
            &&& forall|i: int| 0 <= i < e.tables.len() ==> (#[trigger] e.tables[i]).path != path
        }),
{
    let output = live_output(tables_map(e.tables, disk));
    let path = sstable_path_spec(e.data_dir, e.next_id);
    let file = write_spec(output)->Ok_0;
    let disk2 = with_output_table(e, disk);
    law_table_path_names_its_id(e.data_dir, e.next_id);
    law_written_table_opens(path, output, file);
    lemma_table_rows(output_table(e, disk)->0, disk2, output);
    assert forall|i: int| 0 <= i < e.tables.len() implies (#[trigger] e.tables[i]).path != path by {
        lemma_paths_apart(e, i);
    }
    lemma_write_elsewhere(e, disk, path, file);
    lemma_tables_map_frame(e.tables, disk, disk2);
    if readable(e, disk) {
        lemma_untouched(e, disk, disk2);
    }
}

/// An engine and its disk after a compaction of its tables.
pub open spec fn compacted(e: EngineView, disk: Map<Seq<char>, Seq<u8>>) -> (
    EngineView,
    Map<Seq<char>, Seq<u8>>,
) {
    (
        with_output(EngineView { tables: Seq::empty(), ..e }, output_table(e, disk)),
        without(with_output_table(e, disk), paths_of(e.tables)),
    )
}

/// Whether the rows that a compaction leaves fit in a table, and there is a number
/// behind that of the table.
pub open spec fn output_room(e: EngineView, disk: Map<Seq<char>, Seq<u8>>) -> bool {
    live_output(tables_map(e.tables, disk)).len() > 0 ==> {
        &&& output_fits(tables_map(e.tables, disk))
        &&& e.next_id < u64::MAX
    }
}

/// How a compaction ends when it has read all tables.
proof fn lemma_output_runs(e: EngineView, disk: Map<Seq<char>, Seq<u8>>, flushed: bool)
    requires
        e.wf(),
        all_read(e.tables, disk),
        0 < e.tables.len() <= usize::MAX,
    ensures
        ({
            let rows = listing(tables_map(e.tables, disk));
            let (e1, step1) = compact_write(e, flushed, rows);
            let outcome = run_compact(e1, disk, step1);
            if output_room(e, disk) {
                outcome == (
                    compacted(e, disk).0,
                    compacted(e, disk).1,
                    Ok::<CompactionReport, ErrorView>(report_of(e, flushed, rows)),
                )
            } else {
                outcome.2 is Err
            }
        }),
{
    let m = tables_map(e.tables, disk);
    let rows = listing(m);
    let output = live_output(m);
    let report = report_of(e, flushed, rows);
    let old_paths = paths_of(e.tables);
    let e1 = EngineView { tables: Seq::empty(), ..e };
    let disk2 = with_output_table(e, disk);
    lemma_live_output(e.tables, disk);
    assert(old_paths.skip(0) =~= old_paths);
    if output.len() == 0 {
        lemma_removing_runs(e1, disk, report, None, old_paths, 0);
    } else if write_spec(output) is Ok {
        let path = sstable_path_spec(e.data_dir, e.next_id);
        let file = write_spec(output)->Ok_0;
        let writing = compact_write(e, flushed, rows).1;
        if file.len() <= u64::MAX {
            let table = output_table(e, disk)->0;
            lemma_output_table(e, disk);
            let loading = StepView::<CompactView, CompactionReport>::Perform(
                CompactView::Loading { report, path, old_paths },
                ActionView::ReadTable(path),
            );
            let removing = StepView::<CompactView, CompactionReport>::Perform(
                CompactView::Removing { report, table: Some(table), old_paths, at: 0 },
                ActionView::RemoveFile(old_paths[0]),
            );
            assert(disk2.contains_key(path) && disk2[path] == file);
            assert(run_compact(e1, disk, writing) == run_compact(e1, disk2, loading));
            assert(run_compact(e1, disk2, loading) == run_compact(e1, disk2, removing));
            if e.next_id < u64::MAX {
                lemma_removing_runs(e1, disk2, report, Some(table), old_paths, 0);
            } else {
                assert(run_compact(e1, disk2, removing).2 is Err);
            }
        } else {
            let error = ErrorView::Io(IoErrorKind::Other, Seq::empty());
            let done = StepView::<CompactView, CompactionReport>::Done(Err(error));
            assert(run_compact(e1, disk, writing) == run_compact(e1, disk, done));
        }
    }
}

/// Whether no row is that of a deleted key.
pub open spec fn without_tombstones(rows: Seq<(Seq<u8>, Option<Seq<u8>>)>) -> bool {
    forall|i: int| 0 <= i < rows.len() ==> (#[trigger] rows[i]).1 is Some
}

/// The log is not among the old tables, nor is the new one.
pub proof fn lemma_not_removed(e: EngineView)
    requires
        e.wf(),
    ensures
        !paths_of(e.tables).contains(wal_path_spec(e.data_dir)),
        !paths_of(e.tables).contains(sstable_path_spec(e.data_dir, e.next_id)),
{
    let paths = paths_of(e.tables);
    assert forall|i: int| 0 <= i < paths.len() implies #[trigger] paths[i] != wal_path_spec(
        e.data_dir,
    ) && paths[i] != sstable_path_spec(e.data_dir, e.next_id) by {
        assert(paths[i] == e.tables[i].path);
        lemma_paths_apart(e, i);
    }
}

/// Removing the oldest tables leaves the table files of the others, exactly.
proof fn lemma_oldest_removed(
    tables: Seq<TableView>,
    disk: Map<Seq<char>, Seq<u8>>,
    data_dir: Seq<char>,
    k: int,
)
    requires
        complete(tables, disk, data_dir),
        forall|i: int| 0 <= i < tables.len() ==> (#[trigger] tables[i]).wf(),
        0 <= k <= tables.len(),
    ensures
        complete(tables.skip(k), without(disk, paths_of(tables.take(k))), data_dir),
        forall|i: int|
            k <= i < tables.len() ==> !paths_of(tables.take(k)).contains(
                (#[trigger] tables[i]).path,
            ),
{
    let gone = paths_of(tables.take(k));
    let left = tables.skip(k);
    let disk2 = without(disk, gone);
    assert forall|i: int| k <= i < tables.len() implies !gone.contains(
        (#[trigger] tables[i]).path,
    ) by {
        if gone.contains(tables[i].path) {
            let j = choose|j: int| 0 <= j < gone.len() && gone[j] == tables[i].path;
            assert(gone[j] == tables[j].path);
            assert(tables[j].id < tables[i].id);
        }
    }
    assert forall|path: Seq<char>| #[trigger]
        table_file_on(disk2, data_dir, path) <==> has_path(left, path) by {
        assert(table_file_on(disk, data_dir, path) <==> has_path(tables, path));
        if table_file_on(disk2, data_dir, path) {
            let i = choose|i: int| 0 <= i < tables.len() && (#[trigger] tables[i]).path == path;
            if i < k {
                assert(gone[i] == path);
                assert(gone.contains(path));
            }
            assert(left[i - k].path == path);
        }
        if has_path(left, path) {
            let i = choose|i: int| 0 <= i < left.len() && (#[trigger] left[i]).path == path;
            assert(tables[k + i].path == path);
        }
    }
    assert forall|i: int| 0 <= i < left.len() implies table_spec(
        (#[trigger] left[i]).path,
        disk2[left[i].path],
    ) == Ok::<TableView, ErrorView>(left[i]) by {
        assert(left[i] == tables[k + i]);
        assert(has_path(tables, tables[k + i].path));
        assert(table_file_on(disk, data_dir, tables[k + i].path));
    }
}

/// The tables that are left when the new table, if there is one, was written and the
/// `k` oldest were removed.
pub open spec fn tables_left(
    e: EngineView,
    disk: Map<Seq<char>, Seq<u8>>,
    k: int,
) -> Seq<TableView> {
    match output_table(e, disk) {
        None => e.tables.skip(k),
        Some(table) => e.tables.skip(k).push(table),
    }
}

/// The disk then.
pub open spec fn disk_left(e: EngineView, disk: Map<Seq<char>, Seq<u8>>, k: int) -> Map<
    Seq<char>,
    Seq<u8>,
> {
    without(with_output_table(e, disk), paths_of(e.tables.take(k)))
}

/// The table files that are left are exactly the tables that are left.
proof fn lemma_complete_left(e: EngineView, disk: Map<Seq<char>, Seq<u8>>, k: int)
    requires
        e.wf(),
        output_room(e, disk),
        complete(e.tables, disk, e.data_dir),
        0 <= k <= e.tables.len(),
    ensures
        complete(tables_left(e, disk, k), disk_left(e, disk, k), e.data_dir),
        forall|i: int|
            k <= i < e.tables.len() ==> !paths_of(e.tables.take(k)).contains(
                (#[trigger] e.tables[i]).path,
            ),
{
    let output = live_output(tables_map(e.tables, disk));
    if output.len() > 0 {
        let table = output_table(e, disk)->0;
        let all = e.tables.push(table);
        lemma_output_table(e, disk);
        lemma_table_is_added(e, table, disk, write_spec(output)->Ok_0);
        assert forall|i: int| 0 <= i < all.len() implies (#[trigger] all[i]).wf() by {
            if i < e.tables.len() {
                assert(all[i] == e.tables[i]);
            }
        }
        lemma_oldest_removed(all, with_output_table(e, disk), e.data_dir, k);
        assert(all.take(k) =~= e.tables.take(k));
        assert(all.skip(k) =~= tables_left(e, disk, k));
        assert forall|i: int| k <= i < e.tables.len() implies !paths_of(e.tables.take(k)).contains(
            (#[trigger] e.tables[i]).path,
        ) by {
            assert(all[i] == e.tables[i]);
        }
    } else {
        lemma_oldest_removed(e.tables, disk, e.data_dir, k);
    }
}

/// The table files after a compaction are exactly the tables.
proof fn lemma_complete_after_output(e: EngineView, disk: Map<Seq<char>, Seq<u8>>)
    requires
        e.wf(),
        output_room(e, disk),
        complete(e.tables, disk, e.data_dir),
    ensures
        complete(compacted(e, disk).0.tables, compacted(e, disk).1, e.data_dir),
{
    let k = e.tables.len() as int;
    lemma_complete_left(e, disk, k);
    assert(e.tables.take(k) =~= e.tables);
    assert(e.tables.skip(k) =~= Seq::empty());
}

/// An engine after a compaction of its tables alone: it has at most one table,
/// which holds the live records, and the old files are gone.
proof fn lemma_after_output(e: EngineView, disk: Map<Seq<char>, Seq<u8>>)
    requires
        e.wf(),
        all_read(e.tables, disk),
        e.rows.len() == 0,
        output_room(e, disk),
    ensures
        ({
            let (e2, disk2) = compacted(e, disk);
            let output = live_output(tables_map(e.tables, disk));
            &&& readable(e2, disk2)
            &&& live(contents(e2, disk2)) == live(contents(e, disk))
            &&& e2.rows.len() == 0 && e2.data_dir == e.data_dir
            &&& e2.tables.len() == if output.len() == 0 {
                0nat
            } else {
                1nat
            }
            &&& total_entries(e2.tables) == output.len()
            &&& forall|i: int|
                0 <= i < e2.tables.len() ==> without_tombstones(
                    table_rows(#[trigger] e2.tables[i], disk2),
                )
            &&& forall|i: int|
                0 <= i < e.tables.len() ==> !disk2.contains_key((#[trigger] e.tables[i]).path)
            &&& log_clean(e, disk) ==> log_clean(e2, disk2)
            &&& replays(e, disk) ==> replays(e2, disk2)
        }),
{
    let m = tables_map(e.tables, disk);
    let output = live_output(m);
    let old_paths = paths_of(e.tables);
    let none = EngineView { tables: Seq::empty(), ..e };
    let disk1 = with_output_table(e, disk);
    let (e2, disk2) = compacted(e, disk);
    lemma_not_removed(e);
    lemma_live_output(e.tables, disk);
    law_log_is_no_table(e.data_dir, e.next_id);
    assert(log_on(disk2, e.data_dir) == log_on(disk, e.data_dir));
    if log_clean(e, disk) {
        let entries = choose|entries: Seq<EntryView>| #[trigger]
            is_log(log_on(disk, e.data_dir), entries) && records_of(e.rows) == apply(
                Map::empty(),
                rows_of_log(entries),
            );
        assert(is_log(log_on(disk2, e2.data_dir), entries));
    }
    assert forall|i: int| 0 <= i < e.tables.len() implies !disk2.contains_key(
        (#[trigger] e.tables[i]).path,
    ) by {
        assert(old_paths[i] == e.tables[i].path);
        assert(old_paths.to_set().contains(e.tables[i].path));
    }
    assert(contents(e, disk) == m);
    if output.len() == 0 {
        assert(output =~= Seq::empty());
        assert(contents(e2, disk2) == records_of(output));
    } else {
        let table = output_table(e, disk)->0;
        lemma_output_table(e, disk);
        assert(disk2.contains_key(table.path) && disk2[table.path] == disk1[table.path]);
        assert(table_sound(table, disk2));
        lemma_table_taken_in(none, table, e2);
        assert(e2.tables =~= seq![table]);
        assert(e2.tables.drop_last() =~= Seq::empty());
        assert(table_rows(table, disk2) == output);
        assert(tables_map(e2.tables.drop_last(), disk2) =~= Map::empty());
        assert(tables_map(e2.tables, disk2) == records_of(output));
        assert(without_tombstones(output));
        assert(total_entries(e2.tables.drop_last()) == 0);
    }
}

/// An engine and its disk when the flush of a compaction is done.
pub open spec fn before_merge(e: EngineView, disk: Map<Seq<char>, Seq<u8>>) -> (
    EngineView,
    Map<Seq<char>, Seq<u8>>,
) {
    if e.rows.len() == 0 {
        (e, disk)
    } else {
        (after_flush(e), disk_after_flush(e, disk))
    }
}

/// What a flush within a compaction leaves.
pub proof fn lemma_before_merge(e: EngineView, disk: Map<Seq<char>, Seq<u8>>)
    requires
        e.wf(),
        flushable(e),
    ensures
        ({
            let (e1, disk1) = before_merge(e, disk);
            &&& e.tables.len() <= usize::MAX ==> run_compact(e, disk, compact_start(e))
                == run_compact(e1, disk1, compact_read(e1, e.rows.len() > 0))
            &&& e1.wf()
            &&& readable(e, disk) ==> readable(e1, disk1)
            &&& all_read(e1.tables, disk1) <==> all_read(e.tables, disk)
            &&& contents(e1, disk1) == contents(e, disk)
            &&& contents(e1, disk1) == tables_map(e1.tables, disk1)
            &&& e1.rows.len() == 0
            &&& e1.data_dir == e.data_dir
            &&& complete(e.tables, disk, e.data_dir) ==> complete(e1.tables, disk1, e1.data_dir)
            &&& log_clean(e, disk) ==> log_clean(e1, disk1)
            &&& replays(e, disk) ==> replays(e1, disk1)
            &&& e1.tables.len() == e.tables.len() + (if e.rows.len() > 0 {
                1nat
            } else {
                0nat
            })
            &&& total_entries(e1.tables) == total_entries(e.tables) + e.rows.len()
            &&& forall|i: int| 0 <= i < e.tables.len() ==> #[trigger] e.tables[i] == e1.tables[i]
        }),
{
    let (e1, disk1) = before_merge(e, disk);
    if e.tables.len() <= usize::MAX {
        lemma_flush_in_compaction(e, disk, flush_start(e));
    }
    if e.rows.len() > 0 {
        lemma_flush_runs(e, disk);
        lemma_flushed_table(e, disk);
        lemma_after_flush(e, disk);
        assert(e1.tables.drop_last() =~= e.tables);
        assert(e1.tables.last() == flushed_table(e));
    }
}

/// Whether the rows of an engine can be flushed, those of its tables can be read, the
/// entries can be counted, and there is room for the output.
pub open spec fn compactable(e: EngineView, disk: Map<Seq<char>, Seq<u8>>) -> bool {
    let (e1, disk1) = before_merge(e, disk);
    &&& flushable(e)
    &&& all_read(e.tables, disk)
    &&& e1.tables.len() <= usize::MAX
    &&& total_entries(e1.tables) <= u64::MAX
    &&& output_room(e1, disk1)
}

/// How a compaction runs.
pub proof fn lemma_compact_runs(e: EngineView, disk: Map<Seq<char>, Seq<u8>>)
    requires
        e.wf(),
    ensures
        ({
            let (e1, disk1) = before_merge(e, disk);
            let outcome = run_compact(e, disk, compact_start(e));
            if compactable(e, disk) {
                outcome == (
                    compacted(e1, disk1).0,
                    compacted(e1, disk1).1,
                    Ok::<CompactionReport, ErrorView>(
                        report_of(e1, e.rows.len() > 0, listing(tables_map(e1.tables, disk1))),
                    ),
                )
            } else {
                outcome.2 is Err
            }
        }),
{
    let (e1, disk1) = before_merge(e, disk);
    let flushed = e.rows.len() > 0;
    let outcome = run_compact(e, disk, compact_start(e));
    law_flush_succeeds(e, disk);
    if !flushable(e) {
        if e.tables.len() <= usize::MAX {
            lemma_flush_in_compaction(e, disk, flush_start(e));
        }
    } else {
        lemma_before_merge(e, disk);
        if e.tables.len() > usize::MAX {
            assert(outcome.2 is Err);
        } else if e1.tables.len() == 0 {
            let none = Seq::<(Seq<u8>, Option<Seq<u8>>)>::empty();
            lemma_live_output(e1.tables, disk1);
            assert(tables_map(e1.tables, disk1) == records_of(none));
            lemma_listing(none);
            assert(paths_of(e1.tables) =~= Seq::empty());
            assert(compacted(e1, disk1).0.tables =~= e1.tables);
            assert(compacted(e1, disk1).1 =~= disk1);
        } else if e1.tables.len() <= usize::MAX && total_entries(e1.tables) <= u64::MAX {
            let start = Seq::<(Seq<u8>, Option<Seq<u8>>)>::empty();
            assert(e1.tables.take(0) =~= Seq::empty());
            lemma_reading_runs(e1, disk1, flushed, 0, start);
            if all_read(e1.tables, disk1) {
                lemma_output_runs(e1, disk1, flushed);
            }
        } else {
            assert(run_compact(e1, disk1, compact_read(e1, flushed)).2 is Err);
        }
    }
}

/// A compaction ends well exactly if the rows in memory can be flushed, those of the
/// tables read, the entries counted, and the live records written to a table.
pub proof fn law_compaction_succeeds(e: EngineView, disk: Map<Seq<char>, Seq<u8>>)
    requires
        e.wf(),
    ensures
        run_compact(e, disk, compact_start(e)).2 is Ok <==> compactable(e, disk),
{
    lemma_compact_runs(e, disk);
}

/// What a compaction leaves when it ends well: no row is in memory, there is at most
/// one table, its file is intact, it has no entry of a deleted key, and no other entry
/// than those of the live records that were read; the old tables are off the disk. The
/// table files stay exactly those of the tables, a log of whole records stays one, and
/// one that gives back the rows still does. If the files were intact, all lookups and
/// scans give what they gave.
pub proof fn law_compaction_keeps_answers(e: EngineView, disk: Map<Seq<char>, Seq<u8>>)
    requires
        e.wf(),
    ensures
        ({
            let (e2, disk2, result) = run_compact(e, disk, compact_start(e));
            result is Ok ==> {
                &&& readable(e, disk) ==> same_answers(e, disk, e2, disk2)
                &&& readable(e2, disk2) && e2.data_dir == e.data_dir
                &&& live(contents(e2, disk2)) == live(contents(e, disk))
                &&& e2.rows.len() == 0
                &&& e2.tables.len() <= 1
                &&& total_entries(e2.tables) == listing(live(contents(e, disk))).len()
                &&& forall|i: int|
                    0 <= i < e2.tables.len() ==> without_tombstones(
                        table_rows(#[trigger] e2.tables[i], disk2),
                    )
                &&& forall|i: int|
                    0 <= i < e.tables.len() ==> !disk2.contains_key((#[trigger] e.tables[i]).path)
                &&& complete(e.tables, disk, e.data_dir) ==> complete(
                    e2.tables,
                    disk2,
                    e2.data_dir,
                )
                &&& log_clean(e, disk) ==> log_clean(e2, disk2)
                &&& replays(e, disk) ==> replays(e2, disk2)
            }
        }),
{
    let (e2, disk2, result) = run_compact(e, disk, compact_start(e));
    let (e1, disk1) = before_merge(e, disk);
    lemma_compact_runs(e, disk);
    if result is Ok {
        lemma_before_merge(e, disk);
        lemma_live_output(e1.tables, disk1);
        lemma_after_output(e1, disk1);
        if complete(e.tables, disk, e.data_dir) {
            lemma_complete_after_output(e1, disk1);
        }
        if readable(e, disk) {
            lemma_same_live(e, disk, e2, disk2);
        }
        assert forall|i: int| 0 <= i < e.tables.len() implies !disk2.contains_key(
            (#[trigger] e.tables[i]).path,
        ) by {
            assert(e.tables[i] == e1.tables[i]);
        }
    }
}

/// The keys for which lookups find a value.
pub open spec fn found_keys(e: EngineView, disk: Map<Seq<char>, Seq<u8>>) -> Set<Seq<u8>> {
    Set::new(|key: Seq<u8>| lookup(e, disk, key) is Ok && lookup(e, disk, key)->Ok_0 is Some)
}

/// The keys for which lookups find a value are those of the live records.
proof fn lemma_found_keys(e: EngineView, disk: Map<Seq<char>, Seq<u8>>)
    requires
        readable(e, disk),
    ensures
        found_keys(e, disk).finite(),
        found_keys(e, disk).len() == listing(live(contents(e, disk))).len(),
{
    let rows = listing(contents(e, disk));
    lemma_contents_listing(e, disk);
    lemma_contents_keyed(e, disk);
    lemma_live_rows_listing(rows);
    lemma_listing(live_rows(rows));
    lemma_row_count(live_rows(rows));
    assert(found_keys(e, disk) =~= live(contents(e, disk)).dom()) by {
        assert forall|key: Seq<u8>| #[trigger]
            found_keys(e, disk).contains(key) <==> live(contents(e, disk)).dom().contains(key) by {
            if key.len() > 0 {
                law_get_returns_contents(e, disk, key);
            } else {
                assert(key =~= Seq::empty());
            }
        }
    }
}

/// What a compaction reports when it ends well: whether rows were flushed; how many
/// tables went in, the flushed one among them, and how many came out; how many entries
/// went in, how many came out and are in the new table, which is how many keys lookups
/// find a value for afterwards, and before if the files were intact; and how many were
/// dropped.
pub proof fn law_compaction_reports_what_it_did(e: EngineView, disk: Map<Seq<char>, Seq<u8>>)
    requires
        e.wf(),
    ensures
        ({
            let (e2, disk2, result) = run_compact(e, disk, compact_start(e));
            let report = result->Ok_0;
            result is Ok ==> {
                &&& report.flushed_memtable == (e.rows.len() > 0)
                &&& report.input_sstables == e.tables.len() + (if e.rows.len() > 0 {
                    1nat
                } else {
                    0nat
                })
                &&& found_keys(e2, disk2).finite()
                &&& report.output_entries == found_keys(e2, disk2).len()
                &&& readable(e, disk) ==> found_keys(e, disk) == found_keys(e2, disk2)
                &&& report.output_sstables == if report.output_entries > 0 {
                    1nat
                } else {
                    0nat
                }
                &&& report.output_sstables == e2.tables.len()
                &&& report.output_entries == total_entries(e2.tables)
                &&& report.input_entries == total_entries(e.tables) + e.rows.len()
                &&& report.dropped_entries == report.input_entries - report.output_entries
                &&& e2.rows.len() == 0 && total_size(e2.rows) == 0
            }
        }),
{
    let (e2, disk2, result) = run_compact(e, disk, compact_start(e));
    let (e1, disk1) = before_merge(e, disk);
    lemma_compact_runs(e, disk);
    if result is Ok {
        lemma_before_merge(e, disk);
        lemma_live_output(e1.tables, disk1);
        lemma_after_output(e1, disk1);
        lemma_found_keys(e2, disk2);
        if readable(e, disk) {
            lemma_same_live(e, disk, e2, disk2);
            assert(found_keys(e, disk) =~= found_keys(e2, disk2)) by {
                assert forall|key: Seq<u8>| #[trigger]
                    found_keys(e, disk).contains(key) <==> found_keys(e2, disk2).contains(key) by {
                    assert(lookup(e2, disk2, key) == lookup(e, disk, key));
                }
            }
        }
    }
}

/// A compaction of what a compaction left drops nothing: what it takes in is what the
/// first left, and so is what it leaves.
pub proof fn law_second_compaction_drops_nothing(e: EngineView, disk: Map<Seq<char>, Seq<u8>>)
    requires
        e.wf(),
    ensures
        ({
            let (e2, disk2, first) = run_compact(e, disk, compact_start(e));
            let (e3, disk3, second) = run_compact(e2, disk2, compact_start(e2));
            first is Ok && second is Ok ==> second->Ok_0 == (CompactionReport {
                flushed_memtable: false,
                input_sstables: first->Ok_0.output_sstables,
                output_sstables: first->Ok_0.output_sstables,
                input_entries: first->Ok_0.output_entries,
                output_entries: first->Ok_0.output_entries,
                dropped_entries: 0,
            })
        }),
{
    let (e2, disk2, first) = run_compact(e, disk, compact_start(e));
    law_compaction_keeps_answers(e, disk);
    law_compaction_reports_what_it_did(e, disk);
    if first is Ok {
        law_compaction_reports_what_it_did(e2, disk2);
    }
}

/// An engine that is opened on the files that a compaction left gives the answers that
/// were given before the compaction.
pub proof fn law_reopened_after_compaction(
    e: EngineView,
    disk: Map<Seq<char>, Seq<u8>>,
    config: StorageConfig,
    found: Seq<TableView>,
    again: EngineView,
)
    requires
        readable(e, disk),
        complete(e.tables, disk, e.data_dir),
        log_clean(e, disk),
        config.data_dir@ == e.data_dir,
        opened_on(again, config, run_compact(e, disk, compact_start(e)).1, found),
    ensures
        ({
            let (e2, disk2, result) = run_compact(e, disk, compact_start(e));
            result is Ok ==> {
                &&& same_answers(e, disk, again, disk2)
                &&& readable(again, disk2)
                &&& complete(again.tables, disk2, again.data_dir)
                &&& log_clean(again, disk2)
            }
        }),
{
    let (e2, disk2, result) = run_compact(e, disk, compact_start(e));
    law_compaction_keeps_answers(e, disk);
    if result is Ok {
        law_clean_log_replays(e2, disk2);
        law_reopened_engine_answers_the_same(e2, disk2, config, found, again);
        lemma_same_live(e, disk, again, disk2);
    }
}

/// What the newer tables hold of a key is what all tables hold of it.
proof fn lemma_newer_tables(
    tables: Seq<TableView>,
    disk: Map<Seq<char>, Seq<u8>>,
    k: int,
    key: Seq<u8>,
)
    requires
        0 <= k <= tables.len(),
        forall|i: int| 0 <= i < tables.len() ==> table_sound(#[trigger] tables[i], disk),
    ensures
        tables_map(tables.skip(k), disk).contains_key(key) ==> tables_map(
            tables,
            disk,
        ).contains_key(key) && tables_map(tables.skip(k), disk)[key] == tables_map(
            tables,
            disk,
        )[key],
    decreases tables.len() - k,
{
    let newer = tables.skip(k);
    if newer.len() > 0 {
        let front = tables.drop_last();
        let last = tables.last();
        assert(last == tables[tables.len() - 1]);
        assert(table_sound(last, disk));
        assert forall|i: int| 0 <= i < front.len() implies table_sound(
            #[trigger] front[i],
            disk,
        ) by {
            assert(front[i] == tables[i]);
        }
        assert(newer.drop_last() =~= front.skip(k));
        assert(newer.last() == last);
        lemma_newer_tables(front, disk, k, key);
        lemma_apply_is_overlay(tables_map(front, disk), table_rows(last, disk));
        lemma_apply_is_overlay(tables_map(front.skip(k), disk), table_rows(last, disk));
    }
}

/// What is alive in the tables that are left is what was alive in all.
proof fn lemma_live_left(e: EngineView, disk: Map<Seq<char>, Seq<u8>>, k: int)
    requires
        readable(e, disk),
        output_room(e, disk),
        complete(e.tables, disk, e.data_dir),
        0 <= k <= e.tables.len(),
    ensures
        forall|i: int|
            0 <= i < tables_left(e, disk, k).len() ==> table_sound(
                #[trigger] tables_left(e, disk, k)[i],
                disk_left(e, disk, k),
            ),
        live(tables_map(tables_left(e, disk, k), disk_left(e, disk, k))) == live(
            tables_map(e.tables, disk),
        ),
{
    let m = tables_map(e.tables, disk);
    let output = live_output(m);
    let disk1 = with_output_table(e, disk);
    let disk2 = disk_left(e, disk, k);
    let gone = paths_of(e.tables.take(k));
    let newer = e.tables.skip(k);
    let tables = tables_left(e, disk, k);
    lemma_readable_reads(e, disk);
    lemma_live_output(e.tables, disk);
    lemma_complete_left(e, disk, k);
    lemma_not_removed(e);
    if output.len() > 0 {
        lemma_output_table(e, disk);
    }
    assert forall|i: int| 0 <= i < newer.len() implies disk1.contains_key(
        (#[trigger] newer[i]).path,
    ) && disk2.contains_key(newer[i].path) && disk2[newer[i].path] == disk1[newer[i].path] by {
        assert(newer[i] == e.tables[k + i]);
        assert(table_sound(e.tables[k + i], disk1));
    }
    lemma_tables_frame(newer, disk1, disk2);
    assert forall|i: int| 0 <= i < newer.len() implies table_sound(#[trigger] newer[i], disk2) by {
        assert(newer[i] == e.tables[k + i]);
        assert(table_sound(e.tables[k + i], disk1));
    }
    let held = tables_map(newer, disk2);
    if output.len() == 0 {
        assert forall|key: Seq<u8>| #[trigger] live(held).contains_key(key) implies live(
            m,
        ).contains_key(key) by {
            lemma_newer_tables(e.tables, disk1, k, key);
        }
        assert(output =~= Seq::empty());
        assert(live(held) =~= live(m));
    } else {
        let table = output_table(e, disk)->0;
        if gone.contains(table.path) {
            let j = choose|j: int| 0 <= j < gone.len() && gone[j] == table.path;
            assert(e.tables.take(k)[j] == e.tables[j]);
            assert(paths_of(e.tables)[j] == table.path);
        }
        assert(disk2.contains_key(table.path) && disk2[table.path] == disk1[table.path]);
        assert(table_sound(table, disk2));
        assert forall|i: int| 0 <= i < tables.len() implies table_sound(
            #[trigger] tables[i],
            disk2,
        ) by {
            if i < newer.len() {
                assert(tables[i] == newer[i]);
            }
        }
        assert(tables.drop_last() =~= newer);
        lemma_apply_is_overlay(held, output);
        assert(live(tables_map(tables, disk2)) =~= live(m)) by {
            assert forall|key: Seq<u8>|
                live(tables_map(tables, disk2)).contains_key(key) == #[trigger] live(
                    m,
                ).contains_key(key) && (live(m).contains_key(key) ==> live(
                    tables_map(tables, disk2),
                )[key] == live(m)[key]) by {
                lemma_newer_tables(e.tables, disk1, k, key);
                assert(live(records_of(output)).contains_key(key) == live(m).contains_key(key));
            }
        }
    }
}

/// The log is not touched when tables are written and removed.
proof fn lemma_log_left(e: EngineView, disk: Map<Seq<char>, Seq<u8>>, k: int)
    requires
        e.wf(),
        0 <= k <= e.tables.len(),
    ensures
        log_on(disk_left(e, disk, k), e.data_dir) == log_on(disk, e.data_dir),
{
    let gone = paths_of(e.tables.take(k));
    let wal = wal_path_spec(e.data_dir);
    law_log_is_no_table(e.data_dir, e.next_id);
    if gone.contains(wal) {
        let j = choose|j: int| 0 <= j < gone.len() && gone[j] == wal;
        assert(gone[j] == e.tables[j].path);
        lemma_paths_apart(e, j);
    }
}

/// A crash while a compaction removes the old tables brings nothing back and loses
/// nothing: an engine that is opened when the new table, if there is one, was
/// written and the `k` oldest tables were removed gives the same answers.
pub proof fn law_crash_while_old_tables_are_removed(
    e: EngineView,
    disk: Map<Seq<char>, Seq<u8>>,
    k: int,
    config: StorageConfig,
    found: Seq<TableView>,
    again: EngineView,
)
    requires
        readable(e, disk),
        complete(e.tables, disk, e.data_dir),
        e.rows.len() == 0,
        replays(e, disk),
        output_room(e, disk),
        0 <= k <= e.tables.len(),
        config.data_dir@ == e.data_dir,
        opened_on(again, config, disk_left(e, disk, k), found),
    ensures
        readable(again, disk_left(e, disk, k)),
        complete(again.tables, disk_left(e, disk, k), again.data_dir),
        same_answers(e, disk, again, disk_left(e, disk, k)),
{
    let disk2 = disk_left(e, disk, k);
    let tables = tables_left(e, disk, k);
    lemma_complete_left(e, disk, k);
    lemma_live_left(e, disk, k);
    lemma_log_left(e, disk, k);
    lemma_opened_tables(again, config, disk2, found, tables);
    lemma_listing(e.rows);
    assert(again.rows =~= e.rows);
    assert forall|i: int| 0 <= i < again.tables.len() implies (
    #[trigger] again.tables[i]).wf() by {
        assert(table_sound(tables[i], disk2));
    }
    lemma_same_live(e, disk, again, disk2);
}

} // verus!
