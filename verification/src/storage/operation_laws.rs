//! What operations do, in plain numbers.
use vstd::prelude::*;

use crate::bytes::lex_lt;
use crate::storage::bloom::might_contain_spec;
use crate::storage::compaction::CompactionReport;
use crate::storage::compaction_laws::{
    before_merge, compactable, compacted, law_compaction_keeps_answers,
    law_compaction_reports_what_it_did, lemma_before_merge, lemma_compact_runs, lemma_live_output,
    lemma_not_removed, lemma_output_table, live_output, output_room, output_table,
    with_output_table,
};
use crate::storage::disk_model::{lookup, run_compact, run_flush, run_write, scanned};
use crate::storage::error::{ErrorView, IoErrorKind};
use crate::storage::flush_laws::{
    disk_after_flush, flushed_table, lemma_flush_runs, lemma_flushed_table,
};
use crate::storage::held::{contents, lemma_readable_reads, lemma_sound_reads, readable, tables_map};
use crate::storage::memtable::{law_size_is_the_sum, summed_size};
use crate::storage::merging::lemma_insert_listing;
use crate::storage::paths::{
    law_log_is_no_table, law_table_path_names_its_id, sstable_path_spec, wal_path_spec,
};
use crate::storage::read_laws::{
    all_live, law_get_returns_contents, law_scan_agrees_with_get, lemma_contents_keyed,
    lemma_contents_listing,
};
use crate::storage::rows::{
    as_records, law_at_most, lemma_listing, lemma_live_rows_listing, lemma_records_of_sorted,
    lemma_sorted_rows_unique, listing, live, no_empty_key, records_of, sorted, with_prefix,
};
use crate::storage::sstable::{
    data_size, find_spec, holds_rows, index_size, law_find, law_metadata, law_rows_have_a_table,
    law_written_table_opens, lemma_file_length, read_rows, table_spec, write_spec, MetadataView,
    TableView,
};
use crate::storage::steps::{
    compact_next, compact_start, entry_fits, flush_next, flush_start, get_end, get_start,
    law_entries_of_tables, newest, record_of, row_of, scan_next, with_entry, write_next,
    write_start, ActionView, CompactView, EngineView, FlushView, ScanView, StepView, WriteView,
};
use crate::storage::table_format::decode_data_spec;
use crate::storage::wal::{frame, law_entry_has_a_record, payload_of, record_spec, EntryView, WalOp};
use crate::storage::write_laws::{
    law_write_succeeds, law_write_takes_effect, lemma_with_entry, lemma_write_flushes, with_record,
};

verus! {

/// An engine is in order exactly if its rows strictly increase by their keys and have no
/// empty key, its tables are in order, and they stand in the order of their numbers, all
/// below the next.
pub proof fn law_engine_in_order(e: EngineView)
    ensures
        e.wf() <==> {
            &&& forall|i: int, j: int|
                0 <= i < j < e.rows.len() ==> lex_lt(
                    #[trigger] e.rows[i].0,
                    #[trigger] e.rows[j].0,
                )
            &&& forall|i: int| 0 <= i < e.rows.len() ==> (#[trigger] e.rows[i]).0.len() > 0
            &&& forall|i: int| 0 <= i < e.tables.len() ==> (#[trigger] e.tables[i]).wf()
            &&& forall|i: int, j: int|
                0 <= i < j < e.tables.len() ==> (#[trigger] e.tables[i]).id <= (
                #[trigger] e.tables[j]).id
            &&& forall|i: int|
                0 <= i < e.tables.len() ==> (#[trigger] e.tables[i]).id < e.next_id
        },
{
}

/// Whether rows are small enough for a table, in numbers: keys and values are no longer
/// than four bytes count, the filter has no more bytes than four bytes count, with ten
/// bits for each row, and the whole file no more than eight bytes count.
pub open spec fn small_enough(rows: Seq<(Seq<u8>, Option<Seq<u8>>)>) -> bool {
    &&& 10 * rows.len() <= 8 * 0xffff_ffff
    &&& data_size(rows) + index_size(rows) + 0xffff_ffff + 40 <= 0xffff_ffff_ffff_ffff
    &&& forall|i: int|
        0 <= i < rows.len() ==> {
            &&& (#[trigger] rows[i]).0.len() <= 0xffff_ffff
            &&& rows[i].1 matches Some(value) ==> value.len() <= 0xffff_ffff
        }
}

/// Rows whose sizes do not sum up to more than a quarter of what eight bytes count are
/// small enough, if there are not too many and none is too long.
pub proof fn law_rows_that_are_small_enough(rows: Seq<(Seq<u8>, Option<Seq<u8>>)>)
    requires
        10 * rows.len() <= 8 * 0xffff_ffff,
        summed_size(rows) <= 0x4000_0000_0000_0000,
        forall|i: int|
            0 <= i < rows.len() ==> {
                &&& (#[trigger] rows[i]).0.len() <= 0xffff_ffff
                &&& rows[i].1 matches Some(value) ==> value.len() <= 0xffff_ffff
            },
    ensures
        small_enough(rows),
{
    lemma_sizes(rows);
}

/// What a row takes in a table, against what it counts for in memory.
proof fn lemma_sizes(rows: Seq<(Seq<u8>, Option<Seq<u8>>)>)
    ensures
        data_size(rows) + index_size(rows) <= 2 * summed_size(rows) + 21 * rows.len() + 4,
    decreases rows.len(),
{
    if rows.len() > 0 {
        lemma_sizes(rows.drop_last());
    }
}

/// The file of rows that are small enough for a table has no more bytes than eight bytes
/// count.
proof fn lemma_file_fits(rows: Seq<(Seq<u8>, Option<Seq<u8>>)>)
    requires
        sorted(rows),
        no_empty_key(rows),
        rows.len() > 0,
        small_enough(rows),
    ensures
        write_spec(rows) is Ok,
        write_spec(rows)->Ok_0.len() <= u64::MAX,
{
    law_rows_have_a_table(rows);
    lemma_file_length(rows, write_spec(rows)->Ok_0);
}

/// A flush of rows that are small enough for a table ends well, if there is a number
/// behind that of the table. It leaves no row in memory, and one more table, with the next
/// number, at the path of that number, with a filter, and with all the rows; it reports
/// their number, the first key and the last. The log is empty; no other file is touched.
pub proof fn law_flush_of_small_rows(e: EngineView, disk: Map<Seq<char>, Seq<u8>>)
    requires
        e.wf(),
        e.rows.len() > 0,
        small_enough(e.rows),
        e.next_id < 0xffff_ffff_ffff_ffff,
    ensures
        ({
            let (e2, disk2, result) = run_flush(e, disk, flush_start(e));
            let path = sstable_path_spec(e.data_dir, e.next_id);
            let wal = wal_path_spec(e.data_dir);
            let table = e2.tables[e.tables.len() as int];
            &&& result matches Ok(Some(metadata)) && metadata.id == e.next_id
                && metadata.entry_count == e.rows.len() && metadata.smallest_key == e.rows[0].0
                && metadata.largest_key == e.rows[e.rows.len() - 1].0
            &&& e2.rows.len() == 0
            &&& e2.next_id == e.next_id + 1
            &&& e2.data_dir == e.data_dir && e2.threshold == e.threshold && e2.sync_writes
                == e.sync_writes
            &&& e2.tables.len() == e.tables.len() + 1
            &&& forall|i: int| 0 <= i < e.tables.len() ==> #[trigger] e2.tables[i] == e.tables[i]
            &&& table.id == e.next_id && table.path == path && table.filter is Some
            &&& table.index.len() == e.rows.len()
            &&& forall|i: int|
                0 <= i < e.rows.len() ==> (#[trigger] table.index[i]).0 == e.rows[i].0
            &&& disk2.contains_key(path) && disk2.contains_key(wal)
            &&& read_rows(disk2[path], table.index) == Ok::<
                Seq<(Seq<u8>, Option<Seq<u8>>)>,
                ErrorView,
            >(e.rows)
            &&& disk2[wal].len() == 0
            &&& forall|other: Seq<char>|
                other != path && other != wal ==> #[trigger] disk2.contains_key(other)
                    == disk.contains_key(other) && disk2[other] == disk[other]
        }),
{
    lemma_file_fits(e.rows);
    lemma_flush_runs(e, disk);
    law_metadata(e.next_id, e.rows);
    lemma_new_table(e, disk);
}

/// The table that a flush leaves, and the disk.
proof fn lemma_new_table(e: EngineView, disk: Map<Seq<char>, Seq<u8>>)
    requires
        e.wf(),
        e.rows.len() > 0,
        small_enough(e.rows),
    ensures
        ({
            let disk2 = disk_after_flush(e, disk);
            let path = sstable_path_spec(e.data_dir, e.next_id);
            let wal = wal_path_spec(e.data_dir);
            let table = flushed_table(e);
            &&& table.id == e.next_id && table.path == path && table.filter is Some
            &&& table.index.len() == e.rows.len()
            &&& forall|i: int|
                0 <= i < e.rows.len() ==> (#[trigger] table.index[i]).0 == e.rows[i].0
            &&& disk2.contains_key(path) && disk2.contains_key(wal)
            &&& read_rows(disk2[path], table.index) == Ok::<
                Seq<(Seq<u8>, Option<Seq<u8>>)>,
                ErrorView,
            >(e.rows)
            &&& disk2[wal].len() == 0
            &&& forall|other: Seq<char>|
                other != path && other != wal ==> #[trigger] disk2.contains_key(other)
                    == disk.contains_key(other) && disk2[other] == disk[other]
        }),
{
    let path = sstable_path_spec(e.data_dir, e.next_id);
    lemma_file_fits(e.rows);
    lemma_flushed_table(e, disk);
    law_table_path_names_its_id(e.data_dir, e.next_id);
    law_log_is_no_table(e.data_dir, e.next_id);
    assert(flushed_table(e).filter is Some) by {
        law_written_table_opens(path, e.rows, write_spec(e.rows)->Ok_0);
    }
    let disk2 = disk_after_flush(e, disk);
    let table = flushed_table(e);
    lemma_sound_reads(table, disk2);
    assert(holds_rows(table, disk2[path], e.rows));
    assert forall|i: int| 0 <= i < e.rows.len() implies (#[trigger] table.index[i]).0
        == e.rows[i].0 by {
    }
}

/// A flush of rows whose keys and values are no longer than four bytes count, and whose
/// filter has no more bytes than that, with ten bits for each row, begins by putting the
/// table of those rows in place, under the next number.
pub proof fn law_flush_begins(e: EngineView)
    requires
        e.wf(),
        e.rows.len() > 0,
        10 * e.rows.len() <= 8 * 0xffff_ffff,
        forall|i: int|
            0 <= i < e.rows.len() ==> {
                &&& (#[trigger] e.rows[i]).0.len() <= 0xffff_ffff
                &&& e.rows[i].1 matches Some(value) ==> value.len() <= 0xffff_ffff
            },
    ensures
        flush_start(e) matches StepView::Perform(_, ActionView::WriteTable(path, file)) && path
            == sstable_path_spec(e.data_dir, e.next_id) && write_spec(e.rows) == Ok::<
            Seq<u8>,
            ErrorView,
        >(file),
{
    law_rows_have_a_table(e.rows);
}

/// A flush asks for its actions in an order in which nothing is lost: the table is put in
/// place, it is read back, and only when it opened is the log emptied; only when that was
/// done does the engine change. Where an action fails, the flush ends with that failure
/// and the engine is as it was.
pub proof fn law_order_of_a_flush(e: EngineView, bytes: Seq<u8>, error: ErrorView)
    requires
        e.wf(),
        e.rows.len() > 0,
        small_enough(e.rows),
        e.next_id < 0xffff_ffff_ffff_ffff,
    ensures
        ({
            let path = sstable_path_spec(e.data_dir, e.next_id);
            let failed = (e, StepView::<FlushView, Option<MetadataView>>::Done(Err(error)));
            &&& flush_start(e) matches StepView::Perform(
                writing,
                ActionView::WriteTable(to, file),
            )
            &&& to == path && write_spec(e.rows) == Ok::<Seq<u8>, ErrorView>(file)
            &&& flush_next(e, writing, Err(error)) == failed
            &&& flush_next(e, writing, Ok(bytes)).0 == e
            &&& flush_next(e, writing, Ok(bytes)).1 matches StepView::Perform(
                loading,
                ActionView::ReadTable(from),
            )
            &&& from == path
            &&& flush_next(e, loading, Err(error)) == failed
            &&& flush_next(e, loading, Ok(file)).0 == e
            &&& flush_next(e, loading, Ok(file)).1 matches StepView::Perform(
                emptying,
                ActionView::ResetWal,
            )
            &&& flush_next(e, emptying, Err(error)) == failed
            &&& flush_next(e, emptying, Ok(bytes)).0.rows.len() == 0
            &&& flush_next(e, emptying, Ok(bytes)).0.tables.len() == e.tables.len() + 1
            &&& flush_next(e, emptying, Ok(bytes)).1 matches StepView::Done(Ok(_))
        }),
{
    lemma_file_fits(e.rows);
    lemma_flushed_table(e, Map::empty());
}

/// Whether rows are other rows with one row put in its place, that of its key if there is
/// one.
pub open spec fn is_with_row(
    after: Seq<(Seq<u8>, Option<Seq<u8>>)>,
    rows: Seq<(Seq<u8>, Option<Seq<u8>>)>,
    new: (Seq<u8>, Option<Seq<u8>>),
) -> bool {
    &&& forall|i: int, j: int|
        0 <= i < j < after.len() ==> lex_lt(#[trigger] after[i].0, #[trigger] after[j].0)
    &&& forall|row: (Seq<u8>, Option<Seq<u8>>)| #[trigger]
        after.contains(row) <==> row == new || (rows.contains(row) && row.0 != new.0)
}

/// There are such rows, and they are those that an engine has with an entry among them.
proof fn lemma_with_row(e: EngineView, entry: EntryView)
    requires
        e.wf(),
        entry.key.len() > 0,
    ensures
        with_entry(e, entry).wf(),
        is_with_row(with_entry(e, entry).rows, e.rows, row_of(entry)),
{
    let after = with_entry(e, entry).rows;
    let new = row_of(entry);
    lemma_insert_listing(e.rows, entry.key, record_of(entry));
    lemma_with_entry(e, entry);
    lemma_records_of_sorted(after);
    lemma_records_of_sorted(e.rows);
    assert forall|row: (Seq<u8>, Option<Seq<u8>>)| #[trigger] after.contains(row) <==> row == new
        || (e.rows.contains(row) && row.0 != new.0) by {
        lemma_row_and_record(after, row);
        lemma_row_and_record(e.rows, row);
    }
}

/// A row is among sorted rows exactly if they give its key its record.
proof fn lemma_row_and_record(
    rows: Seq<(Seq<u8>, Option<Seq<u8>>)>,
    row: (Seq<u8>, Option<Seq<u8>>),
)
    requires
        sorted(rows),
    ensures
        rows.contains(row) <==> records_of(rows).contains_key(row.0) && records_of(rows)[row.0]
            == row.1,
{
    lemma_records_of_sorted(rows);
    if rows.contains(row) {
        let i = choose|i: int| 0 <= i < rows.len() && rows[i] == row;
        assert(records_of(rows)[rows[i].0] == rows[i].1);
        assert(rows[i].0 == row.0);
    }
    if records_of(rows).contains_key(row.0) {
        let i = choose|i: int| 0 <= i < rows.len() && #[trigger] rows[i].0 == row.0;
        assert(records_of(rows)[rows[i].0] == rows[i].1);
        assert(rows[i] == (row.0, records_of(rows)[row.0]));
    }
}

/// No other rows are.
proof fn lemma_with_row_unique(
    a: Seq<(Seq<u8>, Option<Seq<u8>>)>,
    b: Seq<(Seq<u8>, Option<Seq<u8>>)>,
    rows: Seq<(Seq<u8>, Option<Seq<u8>>)>,
    new: (Seq<u8>, Option<Seq<u8>>),
)
    requires
        is_with_row(a, rows, new),
        is_with_row(b, rows, new),
    ensures
        a == b,
{
    assert forall|key: Seq<u8>| #[trigger]
        records_of(a).contains_key(key) implies records_of(b).contains_key(key)
        && records_of(a)[key] == records_of(b)[key] by {
        let row = (key, records_of(a)[key]);
        lemma_row_and_record(a, row);
        lemma_row_and_record(b, row);
        assert(a.contains(row) == b.contains(row));
    }
    assert forall|key: Seq<u8>| #[trigger]
        records_of(b).contains_key(key) implies records_of(a).contains_key(key) by {
        let row = (key, records_of(b)[key]);
        lemma_row_and_record(a, row);
        lemma_row_and_record(b, row);
        assert(a.contains(row) == b.contains(row));
    }
    assert(records_of(a) =~= records_of(b));
    lemma_sorted_rows_unique(a, b);
}

/// Whether an entry can be logged and counted, in numbers: the key is not empty, the key
/// and a value that is put are no longer than four bytes count, nor is the whole record,
/// and the size of the rows with the entry is a number that the machine holds.
pub open spec fn small_entry(e: EngineView, entry: EntryView) -> bool {
    let value_len: int = if entry.op == WalOp::Put {
        entry.value.len() as int
    } else {
        0
    };
    &&& 0 < entry.key.len() <= 0xffff_ffff
    &&& value_len <= 0xffff_ffff
    &&& 9 + entry.key.len() + value_len <= 0xffff_ffff
    &&& summed_size(e.rows) + entry.key.len() + value_len + 1 <= usize::MAX
}

/// The row that a put or a delete writes: the key with the value, or without one.
pub open spec fn written_row(entry: EntryView) -> (Seq<u8>, Option<Seq<u8>>) {
    if entry.op == WalOp::Put {
        (entry.key, Some(entry.value))
    } else {
        (entry.key, None)
    }
}

/// What is known of an entry that can be logged and counted.
proof fn lemma_small_entry(e: EngineView, entry: EntryView)
    requires
        small_entry(e, entry),
    ensures
        record_spec(entry) is Ok,
        entry_fits(e, entry),
        written_row(entry) == row_of(entry),
{
    law_entry_has_a_record(entry);
    law_size_is_the_sum(e.rows);
    law_size_is_the_sum(seq![row_of(entry)]);
    let one = seq![row_of(entry)];
    assert(one.drop_last() =~= Seq::empty());
    assert(one.last() == row_of(entry));
}

/// A put or a delete that can be logged and counted, and after which the sizes of the rows
/// sum up to less than the threshold, ends well. The rows are those from before with its
/// row in place, and nothing else about the engine changes; its record stands behind the
/// log, and no other file is touched.
pub proof fn law_write_below_the_threshold(
    e: EngineView,
    disk: Map<Seq<char>, Seq<u8>>,
    entry: EntryView,
    after: Seq<(Seq<u8>, Option<Seq<u8>>)>,
)
    requires
        e.wf(),
        small_entry(e, entry),
        is_with_row(after, e.rows, written_row(entry)),
        summed_size(after) < e.threshold,
    ensures
        ({
            let (e2, disk2, result) = run_write(e, disk, write_start(e, entry));
            let wal = wal_path_spec(e.data_dir);
            &&& result is Ok
            &&& e2 == (EngineView { rows: after, ..e })
            &&& record_spec(entry) is Ok
            &&& disk2 == disk.insert(
                wal,
                (if disk.contains_key(wal) {
                    disk[wal]
                } else {
                    Seq::empty()
                }) + record_spec(entry)->Ok_0,
            )
        }),
{
    lemma_small_entry(e, entry);
    lemma_with_row(e, entry);
    lemma_with_row_unique(after, with_entry(e, entry).rows, e.rows, row_of(entry));
    law_size_is_the_sum(after);
    law_write_succeeds(e, disk, entry);
    law_write_takes_effect(e, disk, entry);
    assert(record_spec(entry)->Ok_0 == frame(payload_of(entry)));
    let (e2, disk2, result) = run_write(e, disk, write_start(e, entry));
    assert(result is Ok);
    assert(e2 == with_entry(e, entry) && disk2 == with_record(e, disk, entry));
    assert(with_entry(e, entry) == (EngineView { rows: after, ..e }));
}

/// A put or a delete that can be logged and counted, and after which the sizes of the rows
/// sum up to the threshold or more, flushes them, if they are small enough for a table and
/// there is a number behind that of the table: it ends well, no row stays in memory, there
/// is one more table, which holds the rows with that of the write in place, and the log is
/// empty.
pub proof fn law_write_at_the_threshold(
    e: EngineView,
    disk: Map<Seq<char>, Seq<u8>>,
    entry: EntryView,
    after: Seq<(Seq<u8>, Option<Seq<u8>>)>,
)
    requires
        e.wf(),
        small_entry(e, entry),
        is_with_row(after, e.rows, written_row(entry)),
        summed_size(after) >= e.threshold,
        small_enough(after),
        e.next_id < 0xffff_ffff_ffff_ffff,
    ensures
        ({
            let (e2, disk2, result) = run_write(e, disk, write_start(e, entry));
            let path = sstable_path_spec(e.data_dir, e.next_id);
            let wal = wal_path_spec(e.data_dir);
            let table = e2.tables[e.tables.len() as int];
            &&& result is Ok
            &&& e2.rows.len() == 0
            &&& e2.next_id == e.next_id + 1
            &&& e2.data_dir == e.data_dir && e2.threshold == e.threshold && e2.sync_writes
                == e.sync_writes
            &&& e2.tables.len() == e.tables.len() + 1
            &&& forall|i: int| 0 <= i < e.tables.len() ==> #[trigger] e2.tables[i] == e.tables[i]
            &&& table.id == e.next_id && table.path == path && table.filter is Some
            &&& disk2.contains_key(path) && disk2.contains_key(wal)
            &&& read_rows(disk2[path], table.index) == Ok::<
                Seq<(Seq<u8>, Option<Seq<u8>>)>,
                ErrorView,
            >(after)
            &&& disk2[wal].len() == 0
            &&& forall|other: Seq<char>|
                other != path && other != wal ==> #[trigger] disk2.contains_key(other)
                    == disk.contains_key(other) && disk2[other] == disk[other]
        }),
{
    let e1 = with_entry(e, entry);
    let disk1 = with_record(e, disk, entry);
    lemma_small_entry(e, entry);
    lemma_with_row(e, entry);
    lemma_with_row_unique(after, e1.rows, e.rows, row_of(entry));
    law_size_is_the_sum(after);
    assert(e1.rows.contains(row_of(entry)));
    lemma_file_fits(after);
    lemma_write_flushes(e, disk, entry);
    law_flush_of_small_rows(e1, disk1);
    lemma_flush_runs(e1, disk1);
}

/// A put or a delete is logged before it takes effect, and where the store is told to sync
/// its writes the log is brought to the disk in between. Where that fails, the write ends
/// with that failure and the engine is as it was.
pub proof fn law_order_of_a_write(
    e: EngineView,
    entry: EntryView,
    bytes: Seq<u8>,
    error: ErrorView,
    after: Seq<(Seq<u8>, Option<Seq<u8>>)>,
)
    requires
        e.wf(),
        small_entry(e, entry),
        is_with_row(after, e.rows, written_row(entry)),
    ensures
        ({
            let failed = (e, StepView::<WriteView, ()>::Done(Err(error)));
            &&& write_start(e, entry) matches StepView::Perform(
                logging,
                ActionView::AppendWal(record),
            )
            &&& record_spec(entry) == Ok::<Seq<u8>, ErrorView>(record)
            &&& write_next(e, logging, Err(error)) == failed
            &&& !e.sync_writes ==> write_next(e, logging, Ok(bytes)).0 == (EngineView {
                rows: after,
                ..e
            })
            &&& e.sync_writes ==> {
                &&& write_next(e, logging, Ok(bytes)).0 == e
                &&& write_next(e, logging, Ok(bytes)).1 matches StepView::Perform(
                    syncing,
                    ActionView::SyncWal,
                )
                &&& write_next(e, syncing, Err(error)) == failed
                &&& write_next(e, syncing, Ok(bytes)).0 == (EngineView { rows: after, ..e })
            }
        }),
{
    lemma_small_entry(e, entry);
    lemma_with_row(e, entry);
    lemma_with_row_unique(after, with_entry(e, entry).rows, e.rows, row_of(entry));
}

// Reading.

/// A lookup of the empty key is refused.
pub proof fn law_lookup_of_the_empty_key(
    e: EngineView,
    disk: Map<Seq<char>, Seq<u8>>,
    key: Seq<u8>,
)
    requires
        key.len() == 0,
    ensures
        lookup(e, disk, key) == Err::<Option<Seq<u8>>, ErrorView>(
            ErrorView::InvalidInput("keys must not be empty"@),
        ),
{
}

/// A lookup of a key that has a row in memory gives what that row has, without the disk.
pub proof fn law_lookup_in_memory(e: EngineView, disk: Map<Seq<char>, Seq<u8>>, i: int)
    requires
        e.wf(),
        0 <= i < e.rows.len(),
    ensures
        get_start(e, e.rows[i].0) == StepView::<(), Option<Seq<u8>>>::Done(Ok(e.rows[i].1)),
        lookup(e, disk, e.rows[i].0) == Ok::<Option<Seq<u8>>, ErrorView>(e.rows[i].1),
{
    lemma_records_of_sorted(e.rows);
    assert(e.rows[i].0.len() > 0);
}

/// A lookup of a key without a row in memory reads one row, where the newest table whose
/// index has the key, and whose filter does not rule it out, says that it begins. Where
/// there is no such table the key has no value, and nothing is read.
pub proof fn law_lookup_in_tables(e: EngineView, key: Seq<u8>, i: int, k: int)
    requires
        e.wf(),
        key.len() > 0,
        forall|j: int| 0 <= j < e.rows.len() ==> (#[trigger] e.rows[j]).0 != key,
        forall|j: int, l: int|
            i < j < e.tables.len() && 0 <= l < e.tables[j].index.len() ==> (
            #[trigger] e.tables[j].index[l]).0 != key,
    ensures
        i == -1 ==> get_start(e, key) == StepView::<(), Option<Seq<u8>>>::Done(Ok(None)),
        0 <= i < e.tables.len() && 0 <= k < e.tables[i].index.len() && e.tables[i].index[k].0
            == key && (e.tables[i].filter is Some ==> might_contain_spec(
            e.tables[i].filter->0,
            key,
        )) ==> get_start(e, key) == StepView::<(), Option<Seq<u8>>>::Perform(
            (),
            ActionView::ReadRecord(e.tables[i].path, e.tables[i].index[k].1),
        ),
{
    lemma_records_of_sorted(e.rows);
    if -1 <= i < e.tables.len() {
        lemma_newest_table(e.tables, key, i);
    }
    if 0 <= i < e.tables.len() && 0 <= k < e.tables[i].index.len() && e.tables[i].index[k].0
        == key {
        assert(e.tables[i].wf());
        assert(e.tables[i].index.contains((key, e.tables[i].index[k].1)));
        law_find(e.tables[i], key, e.tables[i].index[k].1);
    }
}

/// Tables that do not have the key are passed over.
proof fn lemma_newest_table(tables: Seq<TableView>, key: Seq<u8>, i: int)
    requires
        -1 <= i < tables.len(),
        forall|j: int| 0 <= j < tables.len() ==> (#[trigger] tables[j]).wf(),
        forall|j: int, l: int|
            i < j < tables.len() && 0 <= l < tables[j].index.len() ==> (
            #[trigger] tables[j].index[l]).0 != key,
    ensures
        i == -1 ==> newest(tables, key) is None,
        i >= 0 && find_spec(tables[i], key) is Some ==> newest(tables, key) == Some(
            (tables[i].path, find_spec(tables[i], key)->0),
        ),
    decreases tables.len(),
{
    if i < tables.len() - 1 {
        let n = tables.len() - 1;
        let front = tables.drop_last();
        assert(tables[n].wf());
        if let Some(offset) = find_spec(tables[n], key) {
            law_find(tables[n], key, offset);
            let l = choose|l: int|
                0 <= l < tables[n].index.len() && tables[n].index[l] == (key, offset);
            assert(tables[n].index[l].0 == key);
        }
        assert forall|j: int| 0 <= j < front.len() implies (#[trigger] front[j]).wf() by {
            assert(front[j] == tables[j]);
        }
        assert forall|j: int, l: int|
            i < j < front.len() && 0 <= l < front[j].index.len() implies (
        #[trigger] front[j].index[l]).0 != key by {
            assert(front[j] == tables[j]);
            assert(tables[j].index[l].0 != key);
        }
        lemma_newest_table(front, key, i);
    }
}

/// What was read ends a lookup: with the value of the row, with none if the row is of a
/// deleted key, with what is wrong with its bytes, or with the failure to read them.
pub proof fn law_end_of_a_lookup(bytes: Seq<u8>, error: ErrorView)
    ensures
        get_end(Err(error)) == Err::<Option<Seq<u8>>, ErrorView>(error),
        match decode_data_spec(bytes) {
            Ok(row) => get_end(Ok(bytes)) == Ok::<Option<Seq<u8>>, ErrorView>(row.1),
            Err(wrong) => get_end(Ok(bytes)) == Err::<Option<Seq<u8>>, ErrorView>(wrong),
        },
{
}

/// A scan of intact files gives pairs in strict key order, no more than the limit. Each is
/// of a key with the prefix, and a lookup of the key gives the value. A pair of which
/// that is true and that is not given has a key behind all that are, and the limit was
/// reached.
pub proof fn law_scan_in_numbers(
    e: EngineView,
    disk: Map<Seq<char>, Seq<u8>>,
    prefix: Seq<u8>,
    limit: nat,
)
    requires
        readable(e, disk),
    ensures
        scanned(e, disk, prefix, limit) is Ok,
        ({
            let pairs = scanned(e, disk, prefix, limit)->Ok_0;
            &&& pairs.len() <= limit
            &&& forall|i: int, j: int|
                0 <= i < j < pairs.len() ==> lex_lt(#[trigger] pairs[i].0, #[trigger] pairs[j].0)
            &&& forall|i: int|
                0 <= i < pairs.len() ==> prefix.is_prefix_of((#[trigger] pairs[i]).0) && lookup(
                    e,
                    disk,
                    pairs[i].0,
                ) == Ok::<Option<Seq<u8>>, ErrorView>(Some(pairs[i].1))
            &&& forall|key: Seq<u8>, value: Seq<u8>|
                prefix.is_prefix_of(key) && lookup(e, disk, key) == Ok::<
                    Option<Seq<u8>>,
                    ErrorView,
                >(Some(value)) && !#[trigger] pairs.contains((key, value)) ==> pairs.len() == limit
                    && forall|i: int| 0 <= i < pairs.len() ==> lex_lt(#[trigger] pairs[i].0, key)
        }),
{
    let all = all_live(e, disk, prefix);
    let pairs = scanned(e, disk, prefix, limit)->Ok_0;
    law_scan_agrees_with_get(e, disk, prefix, limit);
    law_at_most(all, limit);
    assert forall|i: int| 0 <= i < pairs.len() implies prefix.is_prefix_of((#[trigger] pairs[i]).0)
        && lookup(e, disk, pairs[i].0) == Ok::<Option<Seq<u8>>, ErrorView>(Some(pairs[i].1)) by {
        assert(all[i] == pairs[i]);
        assert(all.contains((pairs[i].0, pairs[i].1)));
    }
    assert forall|key: Seq<u8>, value: Seq<u8>|
        prefix.is_prefix_of(key) && lookup(e, disk, key) == Ok::<Option<Seq<u8>>, ErrorView>(
            Some(value),
        ) && !#[trigger] pairs.contains((key, value)) implies pairs.len() == limit && forall|i: int|
        0 <= i < pairs.len() ==> lex_lt(#[trigger] pairs[i].0, key) by {
        assert(all.contains((key, value)));
        let k = choose|k: int| 0 <= k < all.len() && all[k] == (key, value);
        if k < pairs.len() {
            assert(pairs[k] == all[k]);
        }
        assert forall|i: int| 0 <= i < pairs.len() implies lex_lt(#[trigger] pairs[i].0, key) by {
            assert(pairs[i] == all[i]);
            assert(lex_lt(all[i].0, all[k].0));
        }
    }
}

/// A scan ends with the failure to read a table, and with what is wrong with one.
pub proof fn law_failed_scan(e: EngineView, scan: ScanView, file: Seq<u8>, error: ErrorView)
    ensures
        scan_next(e, scan, Err(error)) == StepView::<ScanView, Seq<(Seq<u8>, Seq<u8>)>>::Done(
            Err(error),
        ),
        read_rows(file, with_prefix(e.tables[scan.at as int].index, scan.prefix)) matches Err(wrong)
            ==> scan_next(e, scan, Ok(file)) == StepView::<
            ScanView,
            Seq<(Seq<u8>, Seq<u8>)>,
        >::Done(Err(wrong)),
{
}

// Compaction.

/// Whether pairs are those of the keys for which lookups find a value, in key order.
pub open spec fn all_found(
    pairs: Seq<(Seq<u8>, Seq<u8>)>,
    e: EngineView,
    disk: Map<Seq<char>, Seq<u8>>,
) -> bool {
    &&& forall|i: int, j: int|
        0 <= i < j < pairs.len() ==> lex_lt(#[trigger] pairs[i].0, #[trigger] pairs[j].0)
    &&& forall|key: Seq<u8>, value: Seq<u8>| #[trigger]
        pairs.contains((key, value)) <==> lookup(e, disk, key) == Ok::<
            Option<Seq<u8>>,
            ErrorView,
        >(Some(value))
}

/// The pairs that lookups find are the listing of what is alive.
proof fn lemma_all_found(
    pairs: Seq<(Seq<u8>, Seq<u8>)>,
    e: EngineView,
    disk: Map<Seq<char>, Seq<u8>>,
)
    requires
        readable(e, disk),
        all_found(pairs, e, disk),
    ensures
        pairs == listing(live(contents(e, disk))),
{
    let rows = listing(contents(e, disk));
    let alive = live(contents(e, disk));
    lemma_contents_listing(e, disk);
    lemma_contents_keyed(e, disk);
    lemma_records_of_sorted(pairs);
    lemma_live_rows_listing(rows);
    assert forall|key: Seq<u8>| #[trigger]
        records_of(pairs).contains_key(key) implies alive.contains_key(key) && records_of(
        pairs,
    )[key] == alive[key] by {
        let i = choose|i: int| 0 <= i < pairs.len() && #[trigger] pairs[i].0 == key;
        assert(records_of(pairs)[pairs[i].0] == pairs[i].1);
        assert(pairs.contains((key, pairs[i].1)));
        if key.len() > 0 {
            law_get_returns_contents(e, disk, key);
        }
    }
    assert forall|key: Seq<u8>| #[trigger] alive.contains_key(key) implies records_of(
        pairs,
    ).contains_key(key) by {
        if key.len() == 0 {
            assert(key =~= Seq::empty());
        } else {
            law_get_returns_contents(e, disk, key);
            assert(pairs.contains((key, alive[key])));
            let i = choose|i: int| 0 <= i < pairs.len() && pairs[i] == (key, alive[key]);
            assert(pairs[i].0 == key);
        }
    }
    assert(records_of(pairs) =~= alive);
    lemma_listing(pairs);
}

/// Pairs as the rows of a table.
pub open spec fn rows_with_values(pairs: Seq<(Seq<u8>, Seq<u8>)>) -> Seq<
    (Seq<u8>, Option<Seq<u8>>),
> {
    Seq::new(pairs.len(), |i: int| (pairs[i].0, Some(pairs[i].1)))
}

/// A compaction of intact files ends well, if the rows in memory and the pairs that
/// lookups find are small enough for a table, there are numbers for the new tables, and
/// the tables and their entries can be counted. It leaves no row in memory. There is one
/// table, and it holds those pairs, or none where there are no pairs. The old files are
/// gone, and a log is empty if rows were flushed, and untouched if not. The report has the
/// numbers of the tables and of the entries before and after.
pub proof fn law_compaction_in_numbers(
    e: EngineView,
    disk: Map<Seq<char>, Seq<u8>>,
    pairs: Seq<(Seq<u8>, Seq<u8>)>,
)
    requires
        readable(e, disk),
        all_found(pairs, e, disk),
        small_enough(e.rows),
        small_enough(rows_with_values(pairs)),
        e.next_id < 0xffff_ffff_ffff_fffe,
        e.tables.len() < usize::MAX,
        e.tables.fold_left(0int, |sum: int, table: TableView| sum + table.index.len())
            + e.rows.len() <= 0xffff_ffff_ffff_ffff,
    ensures
        ({
            let (e2, disk2, result) = run_compact(e, disk, compact_start(e));
            let flushed: int = if e.rows.len() > 0 {
                1
            } else {
                0
            };
            let input = e.tables.fold_left(
                0int,
                |sum: int, table: TableView| sum + table.index.len(),
            ) + e.rows.len();
            let output: int = if pairs.len() > 0 {
                1
            } else {
                0
            };
            let wal = wal_path_spec(e.data_dir);
            let path = sstable_path_spec(e.data_dir, (e.next_id + flushed) as u64);
            &&& result matches Ok(report) && report.flushed_memtable == (e.rows.len() > 0)
                && report.input_sstables == e.tables.len() + flushed && report.output_sstables
                == output && report.input_entries == input && report.output_entries == pairs.len()
                && report.dropped_entries == input - pairs.len()
            &&& e2.rows.len() == 0
            &&& e2.tables.len() == output
            &&& e2.next_id == e.next_id + flushed + output
            &&& e2.data_dir == e.data_dir && e2.threshold == e.threshold && e2.sync_writes
                == e.sync_writes
            &&& pairs.len() > 0 ==> {
                let table = e2.tables[0];
                &&& table.id == e.next_id + flushed && table.path == path && table.filter is Some
                &&& disk2.contains_key(path)
                &&& read_rows(disk2[path], table.index) == Ok::<
                    Seq<(Seq<u8>, Option<Seq<u8>>)>,
                    ErrorView,
                >(rows_with_values(pairs))
            }
            &&& forall|i: int|
                0 <= i < e.tables.len() ==> !disk2.contains_key((#[trigger] e.tables[i]).path)
            &&& e.rows.len() == 0 ==> disk2.contains_key(wal) == disk.contains_key(wal)
            &&& e.rows.len() == 0 && disk.contains_key(wal) ==> disk2[wal] == disk[wal]
            &&& e.rows.len() > 0 ==> disk2.contains_key(wal) && disk2[wal].len() == 0
        }),
{
    let (e1, disk1) = before_merge(e, disk);
    lemma_compaction_fits(e, disk, pairs);
    lemma_compact_runs(e, disk);
    law_compaction_keeps_answers(e, disk);
    law_compaction_reports_what_it_did(e, disk);
    lemma_before_merge(e, disk);
    lemma_compacted(e1, disk1);
    law_entries_of_tables(e.tables);
    law_log_is_no_table(e.data_dir, e.next_id);
    assert(live_output(tables_map(e1.tables, disk1)) == rows_with_values(pairs));
    lemma_compacted_entries(e, disk);
}

/// What a compaction reports of the entries that are left.
proof fn lemma_compacted_entries(e: EngineView, disk: Map<Seq<char>, Seq<u8>>)
    requires
        e.wf(),
        compactable(e, disk),
    ensures
        run_compact(e, disk, compact_start(e)).2 is Ok,
        run_compact(e, disk, compact_start(e)).2->Ok_0.output_entries == live_output(
            tables_map(before_merge(e, disk).0.tables, before_merge(e, disk).1),
        ).len(),
{
    let (e1, disk1) = before_merge(e, disk);
    lemma_compact_runs(e, disk);
    lemma_before_merge(e, disk);
    lemma_live_output(e1.tables, disk1);
}

/// A compaction in such numbers ends well, and it leaves those pairs.
proof fn lemma_compaction_fits(
    e: EngineView,
    disk: Map<Seq<char>, Seq<u8>>,
    pairs: Seq<(Seq<u8>, Seq<u8>)>,
)
    requires
        readable(e, disk),
        all_found(pairs, e, disk),
        small_enough(e.rows),
        small_enough(rows_with_values(pairs)),
        e.next_id < 0xffff_ffff_ffff_fffe,
        e.tables.len() < usize::MAX,
        e.tables.fold_left(0int, |sum: int, table: TableView| sum + table.index.len())
            + e.rows.len() <= 0xffff_ffff_ffff_ffff,
    ensures
        compactable(e, disk),
        live_output(tables_map(before_merge(e, disk).0.tables, before_merge(e, disk).1))
            == rows_with_values(pairs),
{
    let (e1, disk1) = before_merge(e, disk);
    let output = live_output(tables_map(e1.tables, disk1));
    if e.rows.len() > 0 {
        lemma_file_fits(e.rows);
    }
    lemma_readable_reads(e, disk);
    lemma_before_merge(e, disk);
    lemma_all_found(pairs, e, disk);
    law_entries_of_tables(e.tables);
    assert(rows_with_values(pairs) =~= as_records(pairs));
    assert(output == rows_with_values(pairs));
    lemma_live_output(e1.tables, disk1);
    if pairs.len() > 0 {
        assert forall|i: int| 0 <= i < output.len() implies (#[trigger] output[i]).0.len() > 0 by {
            assert(output[i].0 == pairs[i].0);
            assert(pairs.contains((pairs[i].0, pairs[i].1)));
        }
        lemma_file_fits(output);
    }
}

/// The engine and the disk that a compaction leaves.
proof fn lemma_compacted(e: EngineView, disk: Map<Seq<char>, Seq<u8>>)
    requires
        e.wf(),
        output_room(e, disk),
        e.next_id < 0xffff_ffff_ffff_ffff,
    ensures
        ({
            let (e2, disk2) = compacted(e, disk);
            let output = live_output(tables_map(e.tables, disk));
            let wal = wal_path_spec(e.data_dir);
            let path = sstable_path_spec(e.data_dir, e.next_id);
            &&& e2.rows == e.rows
            &&& e2.tables.len() == (if output.len() > 0 {
                1nat
            } else {
                0
            })
            &&& e2.next_id == e.next_id + e2.tables.len()
            &&& e2.data_dir == e.data_dir && e2.threshold == e.threshold && e2.sync_writes
                == e.sync_writes
            &&& output.len() > 0 ==> {
                let table = e2.tables[0];
                &&& table.id == e.next_id && table.path == path && table.filter is Some
                &&& disk2.contains_key(path)
                &&& read_rows(disk2[path], table.index) == Ok::<
                    Seq<(Seq<u8>, Option<Seq<u8>>)>,
                    ErrorView,
                >(output)
            }
            &&& disk2.contains_key(wal) == disk.contains_key(wal)
            &&& disk.contains_key(wal) ==> disk2[wal] == disk[wal]
        }),
{
    let output = live_output(tables_map(e.tables, disk));
    let path = sstable_path_spec(e.data_dir, e.next_id);
    lemma_not_removed(e);
    law_log_is_no_table(e.data_dir, e.next_id);
    if output.len() > 0 {
        let disk1 = with_output_table(e, disk);
        let table = output_table(e, disk)->0;
        lemma_output_table(e, disk);
        assert(table.filter is Some) by {
            law_table_path_names_its_id(e.data_dir, e.next_id);
            law_written_table_opens(path, output, write_spec(output)->Ok_0);
        }
        lemma_sound_reads(table, disk1);
        assert(compacted(e, disk).1[path] == disk1[path]);
    }
}

/// A compaction that has nothing to flush reads its tables from the oldest on, one after
/// the other, and reads the next only when the one before was read. What fails ends it
/// with that failure, and the engine is as it was.
pub proof fn law_order_of_reading(
    e: EngineView,
    flushed: bool,
    at: nat,
    merged: Seq<(Seq<u8>, Option<Seq<u8>>)>,
    file: Seq<u8>,
    error: ErrorView,
)
    requires
        at < e.tables.len(),
    ensures
        e.rows.len() == 0 ==> {
            &&& compact_start(e) matches StepView::Perform(first, ActionView::ReadTable(from))
            &&& from == e.tables[0].path
            &&& first matches CompactView::Reading { flushed, at, merged }
            &&& !flushed && at == 0 && merged.len() == 0
        },
        ({
            let reading = CompactView::Reading { flushed, at, merged };
            let rows = read_rows(file, e.tables[at as int].index);
            let (e1, step1) = compact_next(e, reading, Ok(file));
            &&& compact_next(e, reading, Err(error)) == (
                e,
                StepView::<CompactView, CompactionReport>::Done(Err(error)),
            )
            &&& rows matches Err(wrong) ==> (e1, step1) == (
                e,
                StepView::<CompactView, CompactionReport>::Done(Err(wrong)),
            )
            &&& rows is Ok && at + 1 < e.tables.len() ==> {
                &&& e1 == e
                &&& step1 matches StepView::Perform(next, ActionView::ReadTable(from))
                &&& from == e.tables[at as int + 1].path
                &&& next matches CompactView::Reading { at: then_at, flushed: still, .. }
                &&& then_at == at + 1 && still == flushed
            }
            &&& rows is Ok && at + 1 == e.tables.len() ==> e1 == (EngineView {
                tables: Seq::empty(),
                ..e
            })
        }),
{
}

/// A compaction asks for its other actions in an order in which nothing is lost: the new
/// table is put in place, it is read back, and only when it opened are the old files
/// removed, one after the other; behind the last the new table is taken in. What fails
/// ends it with that failure, but that a file to remove is not there is no failure.
pub proof fn law_order_of_replacing(
    e: EngineView,
    report: CompactionReport,
    path: Seq<char>,
    old_paths: Seq<Seq<char>>,
    table: TableView,
    at: nat,
    file: Seq<u8>,
    error: ErrorView,
)
    requires
        at < old_paths.len(),
        e.next_id < 0xffff_ffff_ffff_ffff,
    ensures
        ({
            let writing = CompactView::Writing { report, path, old_paths };
            let loading = CompactView::Loading { report, path, old_paths };
            let removing = CompactView::Removing { report, table: Some(table), old_paths, at };
            let failed = (e, StepView::<CompactView, CompactionReport>::Done(Err(error)));
            let (e1, step1) = compact_next(e, removing, Ok(file));
            &&& compact_next(e, writing, Err(error)) == failed
            &&& compact_next(e, writing, Ok(file)) == (
                e,
                StepView::<CompactView, CompactionReport>::Perform(
                    loading,
                    ActionView::ReadTable(path),
                ),
            )
            &&& compact_next(e, loading, Err(error)) == failed
            &&& table_spec(path, file) == Err::<TableView, ErrorView>(error) ==> compact_next(
                e,
                loading,
                Ok(file),
            ) == failed
            &&& table_spec(path, file) == Ok::<TableView, ErrorView>(table) && at == 0
                ==> compact_next(e, loading, Ok(file)) == (
                e,
                StepView::<CompactView, CompactionReport>::Perform(
                    removing,
                    ActionView::RemoveFile(old_paths[0]),
                ),
            )
            &&& (error matches ErrorView::Io(kind, _) && kind == IoErrorKind::NotFound)
                ==> compact_next(e, removing, Err(error)) == (e1, step1)
            &&& !(error matches ErrorView::Io(kind, _) && kind == IoErrorKind::NotFound)
                ==> compact_next(e, removing, Err(error)) == failed
            &&& at + 1 < old_paths.len() ==> e1 == e && step1 == StepView::<
                CompactView,
                CompactionReport,
            >::Perform(
                CompactView::Removing { report, table: Some(table), old_paths, at: at + 1 },
                ActionView::RemoveFile(old_paths[at as int + 1]),
            )
            &&& at + 1 == old_paths.len() ==> {
                &&& e1 == (EngineView {
                    tables: e.tables.push(table),
                    next_id: (e.next_id + 1) as u64,
                    ..e
                })
                &&& step1 == StepView::<CompactView, CompactionReport>::Done(Ok(report))
            }
        }),
{
}

} // verus!
