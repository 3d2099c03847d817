//! What a flush leaves.
use vstd::prelude::*;

use crate::storage::disk_model::{log_on, lookup, run_flush, run_scan, same_answers, scanned};
use crate::storage::engine::lemma_table_taken_in;
use crate::storage::error::{ErrorView, IoErrorKind};
use crate::storage::held::{
    all_read, complete, contents, lemma_empty_log, lemma_log_adds_no_table, lemma_sound_reads,
    lemma_table_is_added, lemma_table_rows, lemma_tables_map_frame, lemma_untouched,
    lemma_write_elsewhere, log_clean, readable, replays, table_reads, table_rows, table_sound,
    tables_map, tables_untouched,
};
use crate::storage::memtable::total_size;
use crate::storage::merging::lemma_merge;
use crate::storage::paths::{
    law_log_is_no_table, law_table_path_names_its_id, sstable_path_spec, wal_path_spec,
};
use crate::storage::read_laws::{
    lemma_find, lemma_lookup_in_tables, lemma_record_bytes, lemma_scan_reads,
};
use crate::storage::rows::{lemma_listing, records_of, sorted, with_prefix};
use crate::storage::sstable::{
    find_spec, law_scan_reads_the_prefix, law_written_table_opens, metadata_of, read_rows,
    table_spec, write_spec, MetadataView, TableView,
};
use crate::storage::steps::{
    flush_next, flush_start, merge, newest, scan_from, ActionView, EngineView, FlushView, ScanView,
    StepView,
};

verus! {

/// Whether the rows of an engine fit in a table, and there is a number behind that of
/// the table.
pub open spec fn flushable(e: EngineView) -> bool {
    e.rows.len() > 0 ==> {
        &&& write_spec(e.rows) is Ok
        &&& write_spec(e.rows)->Ok_0.len() <= u64::MAX
        &&& e.next_id < u64::MAX
    }
}

/// The table that a flush makes.
pub open spec fn flushed_table(e: EngineView) -> TableView {
    table_spec(sstable_path_spec(e.data_dir, e.next_id), write_spec(e.rows)->Ok_0)->Ok_0
}

/// The disk of an engine with its rows in a new table.
pub open spec fn with_table(e: EngineView, disk: Map<Seq<char>, Seq<u8>>) -> Map<
    Seq<char>,
    Seq<u8>,
> {
    disk.insert(sstable_path_spec(e.data_dir, e.next_id), write_spec(e.rows)->Ok_0)
}

/// An engine after its rows went to a table.
pub open spec fn after_flush(e: EngineView) -> EngineView {
    EngineView {
        rows: Seq::empty(),
        tables: e.tables.push(flushed_table(e)),
        next_id: (e.next_id + 1) as u64,
        ..e
    }
}

/// The disk after the rows of an engine went to a table.
pub open spec fn disk_after_flush(e: EngineView, disk: Map<Seq<char>, Seq<u8>>) -> Map<
    Seq<char>,
    Seq<u8>,
> {
    with_table(e, disk).insert(wal_path_spec(e.data_dir), Seq::empty())
}

/// The table that a flush writes is sound once it is on the disk.
pub proof fn lemma_flushed_table(e: EngineView, disk: Map<Seq<char>, Seq<u8>>)
    requires
        e.wf(),
        e.rows.len() > 0,
        write_spec(e.rows) is Ok,
        write_spec(e.rows)->Ok_0.len() <= u64::MAX,
    ensures
        table_spec(
            sstable_path_spec(e.data_dir, e.next_id),
            write_spec(e.rows)->Ok_0,
        ) == Ok::<TableView, ErrorView>(flushed_table(e)),
        flushed_table(e).path == sstable_path_spec(e.data_dir, e.next_id),
        flushed_table(e).id == e.next_id,
        flushed_table(e).wf(),
        flushed_table(e).index.len() == e.rows.len(),
        table_sound(flushed_table(e), with_table(e, disk)),
        table_rows(flushed_table(e), with_table(e, disk)) == e.rows,
        table_sound(flushed_table(e), disk_after_flush(e, disk)),
        table_rows(flushed_table(e), disk_after_flush(e, disk)) == e.rows,
{
    let path = sstable_path_spec(e.data_dir, e.next_id);
    let file = write_spec(e.rows)->Ok_0;
    law_table_path_names_its_id(e.data_dir, e.next_id);
    law_log_is_no_table(e.data_dir, e.next_id);
    law_written_table_opens(path, e.rows, file);
    assert(with_table(e, disk)[path] == file);
    assert(disk_after_flush(e, disk)[path] == file);
    lemma_table_rows(flushed_table(e), with_table(e, disk), e.rows);
    lemma_table_rows(flushed_table(e), disk_after_flush(e, disk), e.rows);
}

/// How a flush of rows that fit runs: to its end, unless there is no number for the
/// next table.
pub proof fn lemma_flush_runs(e: EngineView, disk: Map<Seq<char>, Seq<u8>>)
    requires
        e.wf(),
        e.rows.len() > 0,
        write_spec(e.rows) is Ok,
        write_spec(e.rows)->Ok_0.len() <= u64::MAX,
    ensures
        e.next_id < u64::MAX ==> run_flush(e, disk, flush_start(e)) == (
            after_flush(e),
            disk_after_flush(e, disk),
            Ok::<Option<MetadataView>, ErrorView>(Some(metadata_of(e.next_id, e.rows))),
        ),
        e.next_id == u64::MAX ==> run_flush(e, disk, flush_start(e)).2 is Err,
{
    let path = sstable_path_spec(e.data_dir, e.next_id);
    let file = write_spec(e.rows)->Ok_0;
    let disk1 = with_table(e, disk);
    let metadata = metadata_of(e.next_id, e.rows);
    let loading = StepView::<FlushView, Option<MetadataView>>::Perform(
        FlushView::Loading(metadata, path),
        ActionView::ReadTable(path),
    );
    let resetting = StepView::<FlushView, Option<MetadataView>>::Perform(
        FlushView::Resetting(metadata, flushed_table(e)),
        ActionView::ResetWal,
    );
    lemma_flushed_table(e, disk);
    assert(disk1.contains_key(path) && disk1[path] == file);
    assert(run_flush(e, disk, flush_start(e)) == run_flush(e, disk1, loading));
    assert(run_flush(e, disk1, loading) == run_flush(e, disk1, resetting));
    if e.next_id < u64::MAX {
        let done = StepView::<FlushView, Option<MetadataView>>::Done(Ok(Some(metadata)));
        let disk2 = disk_after_flush(e, disk);
        assert(run_flush(e, disk1, resetting) == run_flush(after_flush(e), disk2, done));
    } else {
        assert(run_flush(e, disk1, resetting).2 is Err);
    }
}

/// A flush ends well exactly if the rows fit in a table.
pub proof fn law_flush_succeeds(e: EngineView, disk: Map<Seq<char>, Seq<u8>>)
    requires
        e.wf(),
    ensures
        run_flush(e, disk, flush_start(e)).2 is Ok <==> flushable(e),
{
    if e.rows.len() > 0 && write_spec(e.rows) is Ok {
        let file = write_spec(e.rows)->Ok_0;
        if file.len() <= u64::MAX {
            lemma_flush_runs(e, disk);
        } else {
            let path = sstable_path_spec(e.data_dir, e.next_id);
            let writing = FlushView::Writing(metadata_of(e.next_id, e.rows), path);
            assert(flush_start(e) == StepView::<FlushView, Option<MetadataView>>::Perform(
                writing,
                ActionView::WriteTable(path, file),
            ));
            let error = ErrorView::Io(IoErrorKind::Other, Seq::empty());
            let done = StepView::<FlushView, Option<MetadataView>>::Done(Err(error));
            assert(flush_next(e, writing, Err(error)) == (e, done));
            assert(run_flush(e, disk, flush_start(e)) == run_flush(e, disk, done));
        }
    }
}

/// An engine after a flush is in order, and its other tables are untouched.
pub proof fn lemma_after_flush(e: EngineView, disk: Map<Seq<char>, Seq<u8>>)
    requires
        e.wf(),
        e.rows.len() > 0,
        flushable(e),
    ensures
        after_flush(e).wf(),
        tables_untouched(e, disk, with_table(e, disk)),
        tables_untouched(e, disk, disk_after_flush(e, disk)),
        readable(e, disk) ==> {
            &&& readable(after_flush(e), with_table(e, disk))
            &&& tables_map(after_flush(e).tables, with_table(e, disk)) == contents(e, disk)
            &&& readable(after_flush(e), disk_after_flush(e, disk))
        },
        complete(e.tables, disk, e.data_dir) ==> complete(
            after_flush(e).tables,
            with_table(e, disk),
            e.data_dir,
        ) && complete(after_flush(e).tables, disk_after_flush(e, disk), e.data_dir),
        log_on(disk_after_flush(e, disk), e.data_dir) == Seq::<u8>::empty(),
        log_clean(after_flush(e), disk_after_flush(e, disk)),
        replays(after_flush(e), disk_after_flush(e, disk)),
        all_read(after_flush(e).tables, disk_after_flush(e, disk)) <==> all_read(e.tables, disk),
        tables_map(after_flush(e).tables, disk_after_flush(e, disk)) == contents(e, disk),
{
    let e2 = after_flush(e);
    let table = flushed_table(e);
    let file = write_spec(e.rows)->Ok_0;
    let disk1 = with_table(e, disk);
    let disk2 = disk_after_flush(e, disk);
    lemma_flushed_table(e, disk);
    lemma_table_taken_in(e, table, e2);
    lemma_write_elsewhere(e, disk, table.path, file);
    lemma_write_elsewhere(e, disk1, wal_path_spec(e.data_dir), Seq::empty());
    if readable(e, disk) {
        lemma_untouched(e, disk, disk1);
        lemma_untouched(e, disk, disk2);
        assert(e2.tables.drop_last() =~= e.tables);
        assert forall|i: int| 0 <= i < e2.tables.len() implies table_sound(
            #[trigger] e2.tables[i],
            disk1,
        ) && table_sound(e2.tables[i], disk2) by {
            if i < e.tables.len() {
                assert(e2.tables[i] == e.tables[i]);
                assert(table_sound(e.tables[i], disk1));
                assert(table_sound(e.tables[i], disk2));
            }
        }
    }
    if complete(e.tables, disk, e.data_dir) {
        lemma_table_is_added(e, table, disk, file);
        lemma_log_adds_no_table(e2.tables, disk1, e.data_dir, Seq::empty());
    }
    lemma_empty_log(e2, disk2);
    assert(e2.tables.drop_last() =~= e.tables);
    lemma_tables_map_frame(e.tables, disk, disk2);
    lemma_sound_reads(table, disk2);
    if all_read(e.tables, disk) {
        assert forall|i: int| 0 <= i < e2.tables.len() implies table_reads(
            #[trigger] e2.tables[i],
            disk2,
        ) by {
            if i < e.tables.len() {
                assert(e2.tables[i] == e.tables[i]);
                assert(table_reads(e.tables[i], disk));
            }
        }
    }
    if all_read(e2.tables, disk2) {
        assert forall|i: int| 0 <= i < e.tables.len() implies table_reads(
            #[trigger] e.tables[i],
            disk,
        ) by {
            assert(table_reads(e2.tables[i], disk2));
        }
    }
}

/// A lookup gives the same before and after a flush.
pub proof fn lemma_lookup_after_flush(e: EngineView, disk: Map<Seq<char>, Seq<u8>>, key: Seq<u8>)
    requires
        e.wf(),
        e.rows.len() > 0,
        flushable(e),
    ensures
        lookup(after_flush(e), disk_after_flush(e, disk), key) == lookup(e, disk, key),
{
    let e2 = after_flush(e);
    let disk2 = disk_after_flush(e, disk);
    let table = flushed_table(e);
    lemma_flushed_table(e, disk);
    lemma_after_flush(e, disk);
    lemma_find(table, disk2, key);
    assert(e2.tables.drop_last() =~= e.tables);
    assert(e2.tables.last() == table);
    if records_of(e.rows).contains_key(key) {
        let offset = find_spec(table, key)->0;
        assert(newest(e2.tables, key) == Some((table.path, offset)));
        lemma_record_bytes(disk2[table.path], offset);
    } else {
        lemma_lookup_in_tables(e, disk, e2, disk2, key);
    }
}

/// Merging no rows changes nothing.
proof fn lemma_merge_nothing(rows: Seq<(Seq<u8>, Option<Seq<u8>>)>)
    requires
        sorted(rows),
    ensures
        merge(rows, Seq::empty()) == rows,
{
    lemma_listing(rows);
}

/// Filtering no rows gives none.
proof fn lemma_no_rows_with_prefix(prefix: Seq<u8>)
    ensures
        with_prefix(Seq::<(Seq<u8>, Option<Seq<u8>>)>::empty(), prefix) == Seq::<
            (Seq<u8>, Option<Seq<u8>>),
        >::empty(),
{
    reveal(Seq::filter);
}

/// A scan gives the same before and after a flush, from wherever it has come to.
proof fn lemma_scan_after_flush(e: EngineView, disk: Map<Seq<char>, Seq<u8>>, scan: ScanView)
    requires
        e.wf(),
        e.rows.len() > 0,
        flushable(e),
        scan.at <= e.tables.len(),
        sorted(scan.merged),
    ensures
        run_scan(
            after_flush(e),
            disk_after_flush(e, disk),
            scan_from(after_flush(e), scan),
        ) == run_scan(e, disk, scan_from(e, scan)),
    decreases e.tables.len() - scan.at,
{
    let e2 = after_flush(e);
    let disk2 = disk_after_flush(e, disk);
    let at = scan.at as int;
    lemma_after_flush(e, disk);
    lemma_scan_reads(e2, disk2, scan);
    let table = e2.tables[at];
    let wanted = with_prefix(table.index, scan.prefix);
    let next = ScanView { at: scan.at + 1, ..scan };
    if at == e.tables.len() {
        let found = with_prefix(e.rows, scan.prefix);
        lemma_flushed_table(e, disk);
        law_scan_reads_the_prefix(table, disk2[table.path], e.rows, scan.prefix, wanted.len());
        lemma_no_rows_with_prefix(scan.prefix);
        lemma_merge(scan.merged, found);
        lemma_merge_nothing(merge(scan.merged, found));
        if wanted.len() == 0 {
            assert(found =~= Seq::empty());
        }
    } else {
        lemma_scan_reads(e, disk, scan);
        assert(table == e.tables[at]);
        if wanted.len() == 0 {
            lemma_scan_after_flush(e, disk, next);
        } else if disk.contains_key(table.path) {
            if let Ok(rows) = read_rows(disk[table.path], wanted) {
                lemma_merge(scan.merged, rows);
                lemma_scan_after_flush(
                    e,
                    disk,
                    ScanView { merged: merge(scan.merged, rows), ..next },
                );
            }
        }
    }
}

/// A flush changes no answer: when it ends well, all lookups and scans give what they
/// gave, errors among them. With rows in memory it gives the metadata of a new table
/// under the next number, with as many entries as there were rows; the rows are gone
/// from memory, the log is empty, and what is at the paths of the other tables is as it
/// was. What was intact stays intact and holds the same; a log of whole records stays
/// one, and one that gives back the rows still does.
pub proof fn law_flush_keeps_answers(e: EngineView, disk: Map<Seq<char>, Seq<u8>>)
    requires
        e.wf(),
    ensures
        ({
            let (e2, disk2, result) = run_flush(e, disk, flush_start(e));
            result is Ok ==> {
                &&& e.rows.len() == 0 ==> result == Ok::<Option<MetadataView>, ErrorView>(None)
                    && e2 == e && disk2 == disk
                &&& e.rows.len() > 0 ==> {
                    &&& result == Ok::<Option<MetadataView>, ErrorView>(
                        Some(metadata_of(e.next_id, e.rows)),
                    )
                    &&& e2.tables.len() == e.tables.len() + 1
                    &&& e2.tables.drop_last() == e.tables
                    &&& e2.tables.last().index.len() == e.rows.len()
                    &&& e2.next_id == e.next_id + 1
                    &&& log_on(disk2, e2.data_dir) == Seq::<u8>::empty()
                    &&& log_clean(e2, disk2) && replays(e2, disk2)
                }
                &&& e2.rows.len() == 0 && total_size(e2.rows) == 0
                &&& e2.wf() && e2.data_dir == e.data_dir
                &&& tables_untouched(e, disk, disk2)
                &&& same_answers(e, disk, e2, disk2)
                &&& readable(e, disk) ==> readable(e2, disk2) && contents(e2, disk2) == contents(
                    e,
                    disk,
                )
                &&& complete(e.tables, disk, e.data_dir) ==> complete(
                    e2.tables,
                    disk2,
                    e2.data_dir,
                )
                &&& log_clean(e, disk) ==> log_clean(e2, disk2)
                &&& replays(e, disk) ==> replays(e2, disk2)
            }
        }),
{
    let (e2, disk2, result) = run_flush(e, disk, flush_start(e));
    law_flush_succeeds(e, disk);
    if result is Ok && e.rows.len() > 0 {
        lemma_flush_runs(e, disk);
        lemma_flushed_table(e, disk);
        lemma_after_flush(e, disk);
        assert(e2.tables.drop_last() =~= e.tables);
        assert forall|key: Seq<u8>| #[trigger] lookup(e2, disk2, key) == lookup(e, disk, key) by {
            lemma_lookup_after_flush(e, disk, key);
        }
        assert forall|prefix: Seq<u8>, limit: nat| #[trigger]
            scanned(e2, disk2, prefix, limit) == scanned(e, disk, prefix, limit) by {
            lemma_scan_after_flush(
                e,
                disk,
                ScanView { prefix, limit, at: 0, merged: Seq::empty() },
            );
        }
    }
}

/// A flush of which an action failed leaves the engine as it was.
pub proof fn law_failed_flush_changes_nothing(e: EngineView, flush: FlushView, error: ErrorView)
    ensures
        flush_next(e, flush, Err(error)) == (
            e,
            StepView::<FlushView, Option<MetadataView>>::Done(Err(error)),
        ),
{
}

/// A flush without rows does nothing.
pub proof fn law_empty_flush_does_nothing(e: EngineView, disk: Map<Seq<char>, Seq<u8>>)
    requires
        e.rows.len() == 0,
    ensures
        run_flush(e, disk, flush_start(e)) == (
            e,
            disk,
            Ok::<Option<MetadataView>, ErrorView>(None),
        ),
{
}

} // verus!
