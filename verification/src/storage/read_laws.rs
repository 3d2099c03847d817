//! What lookups and scans give.
use vstd::prelude::*;

use crate::storage::bloom::might_contain_spec;
use crate::storage::disk_model::{lookup, missing, record_bytes, run_scan, same_answers, scanned};
use crate::storage::error::ErrorView;
use crate::storage::held::{
    all_read, contents, has_path, lemma_read_rows_len, lemma_readable_reads, readable, table_reads,
    table_rows, table_sound, tables_map, tables_untouched,
};
use crate::storage::merging::{
    lemma_apply_with_prefix, lemma_live_with_prefix, lemma_merge, lemma_merge_len,
};
use crate::storage::rows::{
    at_most, has_key, lemma_apply_is_overlay, lemma_listing, lemma_live_rows_listing,
    lemma_no_empty_key, lemma_records_of_sorted, lemma_sorted_part, lemma_with_prefix_listing,
    listing, live, live_rows, map_with_prefix, records_of, sorted, with_prefix,
};
use crate::storage::sstable::{
    find_spec, law_scan_reads_the_prefix, read_rows, row_at, tail, TableView,
};
use crate::storage::steps::{
    get_start, merge, newest, scan_from, total_entries, EngineView, ScanView, StepView,
};
use crate::storage::table_format::{decode_data_spec, law_record_span_suffices, record_span_spec};

verus! {

/// The newest table with a record of a key is one of the tables.
proof fn lemma_newest_path(tables: Seq<TableView>, key: Seq<u8>)
    ensures
        newest(tables, key) matches Some((path, _)) ==> has_path(tables, path),
    decreases tables.len(),
{
    if tables.len() > 0 {
        let last = tables.len() - 1;
        assert(tables[last] == tables.last());
        let front = tables.drop_last();
        lemma_newest_path(front, key);
        if let Some((path, _)) = newest(front, key) {
            let i = choose|i: int| 0 <= i < front.len() && (#[trigger] front[i]).path == path;
            assert(tables[i].path == path);
        }
    }
}

/// A lookup that comes to the tables depends on them and on their files alone.
pub proof fn lemma_lookup_in_tables(
    e: EngineView,
    disk: Map<Seq<char>, Seq<u8>>,
    e2: EngineView,
    disk2: Map<Seq<char>, Seq<u8>>,
    key: Seq<u8>,
)
    requires
        newest(e2.tables, key) == newest(e.tables, key),
        tables_untouched(e, disk, disk2),
        !records_of(e.rows).contains_key(key),
        !records_of(e2.rows).contains_key(key),
    ensures
        lookup(e2, disk2, key) == lookup(e, disk, key),
{
    lemma_newest_path(e.tables, key);
    if let Some((path, offset)) = newest(e.tables, key) {
        let i = choose|i: int| 0 <= i < e.tables.len() && (#[trigger] e.tables[i]).path == path;
        assert(disk2.contains_key(e.tables[i].path) == disk.contains_key(e.tables[i].path));
    }
}

/// Reading a row from the bytes that a disk gives for it is reading it from the
/// file.
pub proof fn lemma_record_bytes(file: Seq<u8>, offset: u64)
    ensures
        decode_data_spec(record_bytes(file, offset)) == row_at(file, offset),
{
    let rest = tail(file, offset);
    if rest.len() >= 9 && record_span_spec(rest) <= rest.len() {
        law_record_span_suffices(rest, record_span_spec(rest) as int);
    }
}

/// A table finds its record of a key if it has one.
pub proof fn lemma_find(table: TableView, disk: Map<Seq<char>, Seq<u8>>, key: Seq<u8>)
    requires
        table_sound(table, disk),
    ensures
        find_spec(table, key) is Some <==> records_of(table_rows(table, disk)).contains_key(key),
        find_spec(table, key) matches Some(offset) ==> row_at(disk[table.path], offset) == Ok::<
            (Seq<u8>, Option<Seq<u8>>),
            ErrorView,
        >((key, records_of(table_rows(table, disk))[key])),
{
    let rows = table_rows(table, disk);
    let index = table.index;
    lemma_records_of_sorted(rows);
    lemma_records_of_sorted(index);
    if has_key(rows, key) {
        let i = choose|i: int| 0 <= i < rows.len() && #[trigger] rows[i].0 == key;
        assert(index[i].0 == key);
        assert(records_of(index)[index[i].0] == index[i].1);
        assert(records_of(rows)[rows[i].0] == rows[i].1);
    } else if has_key(index, key) {
        let i = choose|i: int| 0 <= i < index.len() && #[trigger] index[i].0 == key;
        assert(rows[i].0 == key);
    }
}

/// A scan at a table goes on with what the table's file gives.
pub proof fn lemma_scan_reads(e: EngineView, disk: Map<Seq<char>, Seq<u8>>, scan: ScanView)
    requires
        scan.at < e.tables.len(),
    ensures
        ({
            let table = e.tables[scan.at as int];
            let wanted = with_prefix(table.index, scan.prefix);
            let next = ScanView { at: scan.at + 1, ..scan };
            let outcome = run_scan(e, disk, scan_from(e, scan));
            if wanted.len() == 0 {
                outcome == run_scan(e, disk, scan_from(e, next))
            } else if !disk.contains_key(table.path) {
                outcome == Err::<Seq<(Seq<u8>, Seq<u8>)>, ErrorView>(missing()->Err_0)
            } else {
                match read_rows(disk[table.path], wanted) {
                    Err(error) => outcome == Err::<Seq<(Seq<u8>, Seq<u8>)>, ErrorView>(error),
                    Ok(rows) => outcome == run_scan(
                        e,
                        disk,
                        scan_from(e, ScanView { merged: merge(scan.merged, rows), ..next }),
                    ),
                }
            }
        }),
{
    reveal_with_fuel(run_scan, 2);
}

/// The newest table with a record of a key has the record that the tables together
/// hold.
proof fn lemma_newest(tables: Seq<TableView>, disk: Map<Seq<char>, Seq<u8>>, key: Seq<u8>)
    requires
        forall|i: int| 0 <= i < tables.len() ==> table_sound(#[trigger] tables[i], disk),
    ensures
        newest(tables, key) is Some <==> tables_map(tables, disk).contains_key(key),
        newest(tables, key) matches Some((path, offset)) ==> disk.contains_key(path) && row_at(
            disk[path],
            offset,
        ) == Ok::<(Seq<u8>, Option<Seq<u8>>), ErrorView>((key, tables_map(tables, disk)[key])),
    decreases tables.len(),
{
    if tables.len() > 0 {
        let last = tables.last();
        let front = tables.drop_last();
        assert(last == tables[tables.len() - 1]);
        assert(table_sound(last, disk));
        assert forall|i: int| 0 <= i < front.len() implies table_sound(
            #[trigger] front[i],
            disk,
        ) by {
            assert(front[i] == tables[i]);
        }
        lemma_newest(front, disk, key);
        lemma_find(last, disk, key);
        lemma_apply_is_overlay(tables_map(front, disk), table_rows(last, disk));
    }
}

/// A lookup gives the value that the engine holds for the key, and none where it
/// holds none or the key was deleted.
pub proof fn law_get_returns_contents(
    e: EngineView,
    disk: Map<Seq<char>, Seq<u8>>,
    key: Seq<u8>,
)
    requires
        readable(e, disk),
        key.len() > 0,
    ensures
        lookup(e, disk, key) == Ok::<Option<Seq<u8>>, ErrorView>(
            if live(contents(e, disk)).contains_key(key) {
                Some(live(contents(e, disk))[key])
            } else {
                None
            },
        ),
{
    lemma_newest(e.tables, disk, key);
    lemma_apply_is_overlay(tables_map(e.tables, disk), e.rows);
    if let Some((path, offset)) = newest(e.tables, key) {
        lemma_record_bytes(disk[path], offset);
    }
}

/// A key that the filters of all tables rule out is not looked for on the disk.
pub proof fn law_filters_spare_the_disk(e: EngineView, key: Seq<u8>)
    requires
        key.len() > 0,
        !records_of(e.rows).contains_key(key),
        forall|i: int|
            0 <= i < e.tables.len() ==> (#[trigger] e.tables[i]).filter is Some
                && !might_contain_spec(e.tables[i].filter->0, key),
    ensures
        get_start(e, key) == StepView::<(), Option<Seq<u8>>>::Done(Ok(None)),
{
    lemma_ruled_out(e.tables, key);
}

/// No table has a record of a key that all filters rule out.
proof fn lemma_ruled_out(tables: Seq<TableView>, key: Seq<u8>)
    requires
        forall|i: int|
            0 <= i < tables.len() ==> (#[trigger] tables[i]).filter is Some
                && !might_contain_spec(tables[i].filter->0, key),
    ensures
        newest(tables, key) is None,
    decreases tables.len(),
{
    if tables.len() > 0 {
        let front = tables.drop_last();
        assert(tables.last() == tables[tables.len() - 1]);
        assert forall|i: int| 0 <= i < front.len() implies (#[trigger] front[i]).filter is Some
            && !might_contain_spec(front[i].filter->0, key) by {
            assert(front[i] == tables[i]);
        }
        lemma_ruled_out(front, key);
    }
}

/// The newest record of a key wins: that of the rows in memory, or else that of the
/// newest table.
pub proof fn law_newest_record_wins(e: EngineView, disk: Map<Seq<char>, Seq<u8>>, key: Seq<u8>)
    requires
        readable(e, disk),
        key.len() > 0,
    ensures
        records_of(e.rows).contains_key(key) ==> lookup(e, disk, key)
            == Ok::<Option<Seq<u8>>, ErrorView>(records_of(e.rows)[key]),
        !records_of(e.rows).contains_key(key) && e.tables.len() > 0 && records_of(
            table_rows(e.tables.last(), disk),
        ).contains_key(key) ==> lookup(e, disk, key) == Ok::<
            Option<Seq<u8>>,
            ErrorView,
        >(records_of(table_rows(e.tables.last(), disk))[key]),
{
    law_get_returns_contents(e, disk, key);
    lemma_apply_is_overlay(tables_map(e.tables, disk), e.rows);
    if e.tables.len() > 0 {
        let last = e.tables[e.tables.len() - 1];
        assert(table_sound(last, disk));
        lemma_apply_is_overlay(
            tables_map(e.tables.drop_last(), disk),
            table_rows(last, disk),
        );
    }
}

/// What tables hold together has a listing, with no more rows than the tables have
/// entries.
pub proof fn lemma_tables_listing(tables: Seq<TableView>, disk: Map<Seq<char>, Seq<u8>>)
    requires
        all_read(tables, disk),
    ensures
        sorted(listing(tables_map(tables, disk))),
        records_of(listing(tables_map(tables, disk))) == tables_map(tables, disk),
        listing(tables_map(tables, disk)).len() <= total_entries(tables),
    decreases tables.len(),
{
    if tables.len() == 0 {
        let none = Seq::<(Seq<u8>, Option<Seq<u8>>)>::empty();
        lemma_listing(none);
    } else {
        let front = tables.drop_last();
        let last = tables.last();
        assert(table_reads(tables[tables.len() - 1], disk));
        assert forall|i: int| 0 <= i < front.len() implies table_reads(
            #[trigger] front[i],
            disk,
        ) by {
            assert(front[i] == tables[i]);
        }
        lemma_tables_listing(front, disk);
        let before = listing(tables_map(front, disk));
        lemma_merge(before, table_rows(last, disk));
        lemma_merge_len(before, table_rows(last, disk));
        lemma_read_rows_len(disk[last.path], last.index);
    }
}

/// What a scan has merged when it comes to a table: the records of the tables
/// before, as far as their keys have the prefix.
spec fn scan_merged(e: EngineView, disk: Map<Seq<char>, Seq<u8>>, scan: ScanView) -> bool {
    &&& scan.at <= e.tables.len()
    &&& sorted(scan.merged)
    &&& records_of(scan.merged) == map_with_prefix(
        tables_map(e.tables.take(scan.at as int), disk),
        scan.prefix,
    )
}

/// All that an engine holds alive of the keys with a prefix, in key order.
pub open spec fn all_live(
    e: EngineView,
    disk: Map<Seq<char>, Seq<u8>>,
    prefix: Seq<u8>,
) -> Seq<(Seq<u8>, Seq<u8>)> {
    listing(map_with_prefix(live(contents(e, disk)), prefix))
}

/// A scan that has merged the tables before ends with all that the engine holds.
proof fn lemma_scan_runs(e: EngineView, disk: Map<Seq<char>, Seq<u8>>, scan: ScanView)
    requires
        readable(e, disk),
        scan_merged(e, disk, scan),
    ensures
        run_scan(e, disk, scan_from(e, scan)) == Ok::<Seq<(Seq<u8>, Seq<u8>)>, ErrorView>(
            at_most(all_live(e, disk, scan.prefix), scan.limit),
        ),
    decreases e.tables.len() - scan.at,
{
    if scan.at == e.tables.len() {
        let more = with_prefix(e.rows, scan.prefix);
        let merged = merge(scan.merged, more);
        assert(e.tables.take(scan.at as int) =~= e.tables);
        lemma_merge(scan.merged, more);
        lemma_apply_with_prefix(tables_map(e.tables, disk), e.rows, scan.prefix);
        lemma_live_with_prefix(contents(e, disk), scan.prefix);
        lemma_live_rows_listing(merged);
        lemma_listing(live_rows(merged));
    } else {
        let at = scan.at as int;
        let table = e.tables[at];
        let rows = table_rows(table, disk);
        let wanted = with_prefix(table.index, scan.prefix);
        let found = with_prefix(rows, scan.prefix);
        assert(table_sound(table, disk));
        law_scan_reads_the_prefix(table, disk[table.path], rows, scan.prefix, wanted.len());
        assert(e.tables.take(at + 1).drop_last() =~= e.tables.take(at));
        assert(e.tables.take(at + 1).last() == table);
        lemma_apply_with_prefix(tables_map(e.tables.take(at), disk), rows, scan.prefix);
        let next = if wanted.len() > 0 {
            lemma_merge(scan.merged, found);
            ScanView { at: scan.at + 1, merged: merge(scan.merged, found), ..scan }
        } else {
            ScanView { at: scan.at + 1, ..scan }
        };
        lemma_scan_runs(e, disk, next);
    }
}

/// A scan gives the keys with the prefix that the engine holds and that were not
/// deleted, with their values and in key order, up to the limit.
pub proof fn law_scan_returns_contents(
    e: EngineView,
    disk: Map<Seq<char>, Seq<u8>>,
    prefix: Seq<u8>,
    limit: nat,
)
    requires
        readable(e, disk),
    ensures
        scanned(e, disk, prefix, limit) == Ok::<
            Seq<(Seq<u8>, Seq<u8>)>,
            ErrorView,
        >(at_most(all_live(e, disk, prefix), limit)),
{
    let scan = ScanView { prefix, limit, at: 0, merged: Seq::empty() };
    assert(e.tables.take(0) =~= Seq::empty());
    assert(records_of(scan.merged) =~= map_with_prefix(
        tables_map(e.tables.take(0), disk),
        prefix,
    ));
    lemma_scan_runs(e, disk, scan);
}

/// What an engine holds has a listing.
pub proof fn lemma_contents_listing(e: EngineView, disk: Map<Seq<char>, Seq<u8>>)
    requires
        readable(e, disk),
    ensures
        sorted(listing(contents(e, disk))),
        records_of(listing(contents(e, disk))) == contents(e, disk),
{
    lemma_readable_reads(e, disk);
    lemma_tables_listing(e.tables, disk);
    lemma_merge(listing(tables_map(e.tables, disk)), e.rows);
}

/// An engine does not hold the empty key.
pub proof fn lemma_contents_keyed(e: EngineView, disk: Map<Seq<char>, Seq<u8>>)
    requires
        readable(e, disk),
    ensures
        !contents(e, disk).contains_key(Seq::empty()),
{
    lemma_tables_keyed(e.tables, disk);
    lemma_no_empty_key(e.rows);
    lemma_apply_is_overlay(tables_map(e.tables, disk), e.rows);
}

/// Tables do not hold the empty key.
proof fn lemma_tables_keyed(tables: Seq<TableView>, disk: Map<Seq<char>, Seq<u8>>)
    requires
        forall|i: int| 0 <= i < tables.len() ==> table_sound(#[trigger] tables[i], disk),
    ensures
        !tables_map(tables, disk).contains_key(Seq::empty()),
    decreases tables.len(),
{
    if tables.len() > 0 {
        let front = tables.drop_last();
        let last = tables.last();
        let rows = table_rows(last, disk);
        assert(last == tables[tables.len() - 1]);
        assert(table_sound(last, disk));
        assert forall|i: int| 0 <= i < front.len() implies table_sound(
            #[trigger] front[i],
            disk,
        ) by {
            assert(front[i] == tables[i]);
        }
        lemma_tables_keyed(front, disk);
        assert forall|i: int| 0 <= i < rows.len() implies (#[trigger] rows[i]).0.len() > 0 by {
            assert(last.index[i].0 == rows[i].0);
        }
        lemma_no_empty_key(rows);
        lemma_apply_is_overlay(tables_map(front, disk), rows);
    }
}

/// A scan of intact files gives the pairs of keys with the prefix and values that
/// lookups find, all of them and no other, in strict key order, as many as the limit
/// lets through.
pub proof fn law_scan_agrees_with_get(
    e: EngineView,
    disk: Map<Seq<char>, Seq<u8>>,
    prefix: Seq<u8>,
    limit: nat,
)
    requires
        readable(e, disk),
    ensures
        scanned(e, disk, prefix, limit) == Ok::<Seq<(Seq<u8>, Seq<u8>)>, ErrorView>(
            at_most(all_live(e, disk, prefix), limit),
        ),
        sorted(all_live(e, disk, prefix)),
        sorted(at_most(all_live(e, disk, prefix), limit)),
        forall|key: Seq<u8>, value: Seq<u8>| #[trigger]
            all_live(e, disk, prefix).contains((key, value)) <==> prefix.is_prefix_of(key)
                && lookup(e, disk, key) == Ok::<Option<Seq<u8>>, ErrorView>(Some(value)),
{
    let m = contents(e, disk);
    let all = listing(m);
    let kept = with_prefix(all, prefix);
    let shown = live_rows(kept);
    law_scan_returns_contents(e, disk, prefix, limit);
    lemma_contents_listing(e, disk);
    lemma_with_prefix_listing(all, prefix);
    lemma_live_rows_listing(kept);
    lemma_live_with_prefix(m, prefix);
    lemma_listing(shown);
    assert(all_live(e, disk, prefix) == shown);
    let n = at_most(shown, limit).len() as int;
    lemma_sorted_part(shown, 0, n);
    assert(at_most(shown, limit) =~= shown.subrange(0, n));
    lemma_records_of_sorted(shown);
    lemma_contents_keyed(e, disk);
    assert forall|key: Seq<u8>, value: Seq<u8>| #[trigger]
        shown.contains((key, value)) <==> prefix.is_prefix_of(key) && lookup(e, disk, key) == Ok::<
            Option<Seq<u8>>,
            ErrorView,
        >(Some(value)) by {
        if key.len() > 0 {
            law_get_returns_contents(e, disk, key);
        } else {
            assert(key =~= Seq::empty());
        }
        assert(records_of(shown).contains_key(key) <==> prefix.is_prefix_of(key) && live(
            m,
        ).contains_key(key));
        if shown.contains((key, value)) {
            let i = choose|i: int| 0 <= i < shown.len() && shown[i] == (key, value);
            assert(shown[i].0 == key);
            assert(records_of(shown)[shown[i].0] == shown[i].1);
        }
        if records_of(shown).contains_key(key) {
            let i = choose|i: int| 0 <= i < shown.len() && #[trigger] shown[i].0 == key;
            assert(records_of(shown)[shown[i].0] == shown[i].1);
            assert(shown[i] == (key, records_of(shown)[key]));
        }
    }
}

/// Engines whose files are intact and that hold the same alive give the same answers.
pub proof fn lemma_same_live(
    e: EngineView,
    disk: Map<Seq<char>, Seq<u8>>,
    e2: EngineView,
    disk2: Map<Seq<char>, Seq<u8>>,
)
    requires
        readable(e, disk),
        readable(e2, disk2),
        live(contents(e2, disk2)) == live(contents(e, disk)),
    ensures
        same_answers(e, disk, e2, disk2),
{
    assert forall|key: Seq<u8>| #[trigger] lookup(e2, disk2, key) == lookup(e, disk, key) by {
        if key.len() > 0 {
            law_get_returns_contents(e, disk, key);
            law_get_returns_contents(e2, disk2, key);
        }
    }
    assert forall|prefix: Seq<u8>, limit: nat| #[trigger]
        scanned(e2, disk2, prefix, limit) == scanned(e, disk, prefix, limit) by {
        law_scan_returns_contents(e, disk, prefix, limit);
        law_scan_returns_contents(e2, disk2, prefix, limit);
    }
}

/// A scan depends on the rows, on the tables and on their files alone.
proof fn lemma_scan_in_tables(
    e: EngineView,
    disk: Map<Seq<char>, Seq<u8>>,
    e2: EngineView,
    disk2: Map<Seq<char>, Seq<u8>>,
    scan: ScanView,
)
    requires
        e2.rows == e.rows,
        e2.tables == e.tables,
        tables_untouched(e, disk, disk2),
    ensures
        run_scan(e2, disk2, scan_from(e2, scan)) == run_scan(e, disk, scan_from(e, scan)),
    decreases e.tables.len() - scan.at,
{
    if scan.at < e.tables.len() {
        let table = e.tables[scan.at as int];
        let wanted = with_prefix(table.index, scan.prefix);
        let next = ScanView { at: scan.at + 1, ..scan };
        lemma_scan_reads(e, disk, scan);
        lemma_scan_reads(e2, disk2, scan);
        assert(disk2.contains_key(e.tables[scan.at as int].path) == disk.contains_key(table.path));
        if wanted.len() == 0 {
            lemma_scan_in_tables(e, disk, e2, disk2, next);
        } else if disk.contains_key(table.path) {
            if let Ok(rows) = read_rows(disk[table.path], wanted) {
                lemma_scan_in_tables(
                    e,
                    disk,
                    e2,
                    disk2,
                    ScanView { merged: merge(scan.merged, rows), ..next },
                );
            }
        }
    }
}

/// Engines with the same rows, the same tables and the same files give the same
/// answers.
pub proof fn lemma_same_tables_answer(
    e: EngineView,
    disk: Map<Seq<char>, Seq<u8>>,
    e2: EngineView,
    disk2: Map<Seq<char>, Seq<u8>>,
)
    requires
        e2.rows == e.rows,
        e2.tables == e.tables,
        tables_untouched(e, disk, disk2),
    ensures
        same_answers(e, disk, e2, disk2),
{
    assert forall|key: Seq<u8>| #[trigger] lookup(e2, disk2, key) == lookup(e, disk, key) by {
        if !records_of(e.rows).contains_key(key) {
            lemma_lookup_in_tables(e, disk, e2, disk2, key);
        }
    }
    assert forall|prefix: Seq<u8>, limit: nat| #[trigger]
        scanned(e2, disk2, prefix, limit) == scanned(e, disk, prefix, limit) by {
        lemma_scan_in_tables(
            e,
            disk,
            e2,
            disk2,
            ScanView { prefix, limit, at: 0, merged: Seq::empty() },
        );
    }
}

} // verus!
