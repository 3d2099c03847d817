//! What an engine and its disk hold together.
use vstd::prelude::*;

use crate::storage::disk_model::log_on;
use crate::storage::engine::rows_of_log;
use crate::storage::error::ErrorView;
use crate::storage::paths::{
    is_table_file, law_table_path_names_its_id, lemma_log_name, lemma_table_file, sstable_path_spec,
    wal_path_spec,
};
use crate::storage::rows::{apply, records_of};
use crate::storage::sstable::{
    holds_rows, law_entries_are_the_rows, read_rows, table_spec, TableView,
};
use crate::storage::steps::EngineView;
use crate::storage::wal::{
    all_logged, law_long_records_are_refused, law_recover_returns_appended, log_of, record_spec,
    recover_spec, EntryView,
};

verus! {

/// The rows of a table's file.
pub open spec fn table_rows(table: TableView, disk: Map<Seq<char>, Seq<u8>>) -> Seq<
    (Seq<u8>, Option<Seq<u8>>),
> {
    read_rows(disk[table.path], table.index)->Ok_0
}

/// Whether a table's file is on the disk and holds its rows.
pub open spec fn table_sound(table: TableView, disk: Map<Seq<char>, Seq<u8>>) -> bool {
    &&& disk.contains_key(table.path)
    &&& holds_rows(table, disk[table.path], table_rows(table, disk))
}

/// Whether all rows of a table can be read from its file.
pub open spec fn table_reads(table: TableView, disk: Map<Seq<char>, Seq<u8>>) -> bool {
    disk.contains_key(table.path) && read_rows(disk[table.path], table.index) is Ok
}

/// Whether all rows of all tables can be read.
pub open spec fn all_read(tables: Seq<TableView>, disk: Map<Seq<char>, Seq<u8>>) -> bool {
    forall|i: int| 0 <= i < tables.len() ==> table_reads(#[trigger] tables[i], disk)
}

/// What tables hold together: a newer table's record of a key wins.
pub open spec fn tables_map(tables: Seq<TableView>, disk: Map<Seq<char>, Seq<u8>>) -> Map<
    Seq<u8>,
    Option<Seq<u8>>,
>
    decreases tables.len(),
{
    if tables.len() == 0 {
        Map::empty()
    } else {
        apply(tables_map(tables.drop_last(), disk), table_rows(tables.last(), disk))
    }
}

/// What an engine holds: the records of its tables, and over them those of its
/// rows.
pub open spec fn contents(e: EngineView, disk: Map<Seq<char>, Seq<u8>>) -> Map<
    Seq<u8>,
    Option<Seq<u8>>,
> {
    apply(tables_map(e.tables, disk), e.rows)
}

/// Whether the files of all tables of an engine are intact: on the disk, and with
/// their rows.
pub open spec fn readable(e: EngineView, disk: Map<Seq<char>, Seq<u8>>) -> bool {
    &&& e.wf()
    &&& forall|i: int| 0 <= i < e.tables.len() ==> table_sound(#[trigger] e.tables[i], disk)
}

/// Whether a table file is on the disk.
pub open spec fn table_file_on(
    disk: Map<Seq<char>, Seq<u8>>,
    data_dir: Seq<char>,
    path: Seq<char>,
) -> bool {
    disk.contains_key(path) && is_table_file(data_dir, path)
}

/// Whether the table files on the disk are exactly those of the tables, each with a
/// number of its own, and each table is what opening its file gives.
pub open spec fn complete(
    tables: Seq<TableView>,
    disk: Map<Seq<char>, Seq<u8>>,
    data_dir: Seq<char>,
) -> bool {
    &&& forall|i: int, j: int|
        0 <= i < j < tables.len() ==> (#[trigger] tables[i]).id < (#[trigger] tables[j]).id
    &&& forall|path: Seq<char>| #[trigger]
        table_file_on(disk, data_dir, path) <==> has_path(tables, path)
    &&& forall|i: int|
        0 <= i < tables.len() ==> table_spec(
            (#[trigger] tables[i]).path,
            disk[tables[i].path],
        ) == Ok::<TableView, ErrorView>(tables[i])
}

/// Whether one of the tables is at a path.
pub open spec fn has_path(tables: Seq<TableView>, path: Seq<char>) -> bool {
    exists|i: int| 0 <= i < tables.len() && (#[trigger] tables[i]).path == path
}

/// Whether the log gives back the rows of an engine.
pub open spec fn replays(e: EngineView, disk: Map<Seq<char>, Seq<u8>>) -> bool {
    &&& recover_spec(log_on(disk, e.data_dir)) is Ok
    &&& records_of(e.rows) == apply(
        Map::empty(),
        rows_of_log(recover_spec(log_on(disk, e.data_dir))->Ok_0),
    )
}

/// Whether a log is made of the whole records of entries.
pub open spec fn is_log(log: Seq<u8>, entries: Seq<EntryView>) -> bool {
    &&& log == log_of(entries)
    &&& forall|i: int| 0 <= i < entries.len() ==> record_spec(#[trigger] entries[i]) is Ok
}

/// Whether the log of an engine is made of whole records, those of the writes that its
/// rows come from.
pub open spec fn log_clean(e: EngineView, disk: Map<Seq<char>, Seq<u8>>) -> bool {
    exists|entries: Seq<EntryView>| #[trigger]
        is_log(log_on(disk, e.data_dir), entries) && records_of(e.rows) == apply(
            Map::empty(),
            rows_of_log(entries),
        )
}

/// Whether what is at the paths of an engine's tables is the same on two disks.
pub open spec fn tables_untouched(
    e: EngineView,
    disk: Map<Seq<char>, Seq<u8>>,
    disk2: Map<Seq<char>, Seq<u8>>,
) -> bool {
    forall|i: int|
        0 <= i < e.tables.len() ==> {
            &&& disk2.contains_key((#[trigger] e.tables[i]).path) == disk.contains_key(
                e.tables[i].path,
            )
            &&& disk2[e.tables[i].path] == disk[e.tables[i].path]
        }
}

/// The rows of a log do not depend on what a delete would have had for a value.
pub proof fn lemma_logged_rows(entries: Seq<EntryView>)
    ensures
        rows_of_log(all_logged(entries)) == rows_of_log(entries),
{
    assert(rows_of_log(all_logged(entries)) =~= rows_of_log(entries));
}

/// A log of whole records gives back the rows if recovery takes it.
pub proof fn law_clean_log_replays(e: EngineView, disk: Map<Seq<char>, Seq<u8>>)
    requires
        log_clean(e, disk),
        recover_spec(log_on(disk, e.data_dir)) is Ok,
    ensures
        replays(e, disk),
{
    let log = log_on(disk, e.data_dir);
    let entries = choose|entries: Seq<EntryView>| #[trigger]
        is_log(log, entries) && records_of(e.rows) == apply(Map::empty(), rows_of_log(entries));
    assert(log + Seq::empty() =~= log);
    law_long_records_are_refused(entries, Seq::empty());
    law_recover_returns_appended(entries);
    lemma_logged_rows(entries);
}

/// An empty log is one of whole records, and gives back no rows.
pub proof fn lemma_empty_log(e: EngineView, disk: Map<Seq<char>, Seq<u8>>)
    requires
        log_on(disk, e.data_dir) == Seq::<u8>::empty(),
        e.rows.len() == 0,
    ensures
        log_clean(e, disk),
        replays(e, disk),
{
    assert(is_log(log_on(disk, e.data_dir), Seq::empty()));
    assert(rows_of_log(Seq::empty()) =~= Seq::empty());
    assert(e.rows =~= Seq::empty());
    law_clean_log_replays(e, disk);
}

/// As many rows are read as there are index entries.
pub proof fn lemma_read_rows_len(file: Seq<u8>, index: Seq<(Seq<u8>, u64)>)
    ensures
        read_rows(file, index) matches Ok(rows) ==> rows.len() == index.len(),
    decreases index.len(),
{
    if index.len() > 0 {
        lemma_read_rows_len(file, index.drop_last());
    }
}

/// The rows of a sound table can be read.
pub proof fn lemma_sound_reads(table: TableView, disk: Map<Seq<char>, Seq<u8>>)
    requires
        table_sound(table, disk),
    ensures
        table_reads(table, disk),
{
    law_entries_are_the_rows(table, disk[table.path], table_rows(table, disk));
}

/// The rows of intact files can be read.
pub proof fn lemma_readable_reads(e: EngineView, disk: Map<Seq<char>, Seq<u8>>)
    requires
        readable(e, disk),
    ensures
        all_read(e.tables, disk),
{
    assert forall|i: int| 0 <= i < e.tables.len() implies table_reads(
        #[trigger] e.tables[i],
        disk,
    ) by {
        lemma_sound_reads(e.tables[i], disk);
    }
}

/// The rows that a file holds are those that are read from it.
pub proof fn lemma_table_rows(
    table: TableView,
    disk: Map<Seq<char>, Seq<u8>>,
    rows: Seq<(Seq<u8>, Option<Seq<u8>>)>,
)
    requires
        holds_rows(table, disk[table.path], rows),
    ensures
        table_rows(table, disk) == rows,
{
    law_entries_are_the_rows(table, disk[table.path], rows);
}

/// What tables hold depends on their own files alone.
pub proof fn lemma_tables_map_frame(
    tables: Seq<TableView>,
    disk: Map<Seq<char>, Seq<u8>>,
    other: Map<Seq<char>, Seq<u8>>,
)
    requires
        forall|i: int|
            0 <= i < tables.len() ==> other[(#[trigger] tables[i]).path] == disk[tables[i].path],
    ensures
        tables_map(tables, other) == tables_map(tables, disk),
    decreases tables.len(),
{
    if tables.len() > 0 {
        let front = tables.drop_last();
        assert forall|i: int| 0 <= i < front.len() implies other[(#[trigger] front[i]).path]
            == disk[front[i].path] by {
            assert(front[i] == tables[i]);
        }
        lemma_tables_map_frame(front, disk, other);
        assert(tables.last() == tables[tables.len() - 1]);
    }
}

/// What other files hold does not matter to tables.
pub proof fn lemma_tables_frame(
    tables: Seq<TableView>,
    disk: Map<Seq<char>, Seq<u8>>,
    other: Map<Seq<char>, Seq<u8>>,
)
    requires
        forall|i: int|
            0 <= i < tables.len() ==> disk.contains_key((#[trigger] tables[i]).path)
                && other.contains_key(tables[i].path) && other[tables[i].path]
                == disk[tables[i].path],
    ensures
        tables_map(tables, other) == tables_map(tables, disk),
        forall|i: int|
            0 <= i < tables.len() ==> (table_sound(#[trigger] tables[i], disk) <==> table_sound(
                tables[i],
                other,
            )),
{
    lemma_tables_map_frame(tables, disk, other);
}

/// An engine whose table files are untouched stays readable, and its tables hold the
/// same.
pub proof fn lemma_untouched(
    e: EngineView,
    disk: Map<Seq<char>, Seq<u8>>,
    disk2: Map<Seq<char>, Seq<u8>>,
)
    requires
        readable(e, disk),
        tables_untouched(e, disk, disk2),
    ensures
        readable(e, disk2),
        tables_map(e.tables, disk2) == tables_map(e.tables, disk),
        contents(e, disk2) == contents(e, disk),
{
    assert forall|i: int| 0 <= i < e.tables.len() implies disk.contains_key(
        (#[trigger] e.tables[i]).path,
    ) && disk2.contains_key(e.tables[i].path) && disk2[e.tables[i].path]
        == disk[e.tables[i].path] by {
        assert(table_sound(e.tables[i], disk));
    }
    lemma_tables_frame(e.tables, disk, disk2);
    assert forall|i: int| 0 <= i < e.tables.len() implies table_sound(
        #[trigger] e.tables[i],
        disk2,
    ) by {
        assert(table_sound(e.tables[i], disk));
    }
}

/// No table of an engine is where its log is, nor where its next table will be.
pub proof fn lemma_paths_apart(e: EngineView, i: int)
    requires
        e.wf(),
        0 <= i < e.tables.len(),
    ensures
        e.tables[i].path != wal_path_spec(e.data_dir),
        e.tables[i].path != sstable_path_spec(e.data_dir, e.next_id),
{
    assert(e.tables[i].wf());
    lemma_log_name(e.data_dir);
    law_table_path_names_its_id(e.data_dir, e.next_id);
}

/// Writing the log or the next table touches no table.
pub proof fn lemma_write_elsewhere(
    e: EngineView,
    disk: Map<Seq<char>, Seq<u8>>,
    path: Seq<char>,
    bytes: Seq<u8>,
)
    requires
        e.wf(),
        path == wal_path_spec(e.data_dir) || path == sstable_path_spec(e.data_dir, e.next_id),
    ensures
        tables_untouched(e, disk, disk.insert(path, bytes)),
{
    assert forall|i: int| 0 <= i < e.tables.len() implies (#[trigger] e.tables[i]).path != path by {
        lemma_paths_apart(e, i);
    }
}

/// Writing the log adds no table file.
pub proof fn lemma_log_adds_no_table(
    tables: Seq<TableView>,
    disk: Map<Seq<char>, Seq<u8>>,
    data_dir: Seq<char>,
    bytes: Seq<u8>,
)
    requires
        complete(tables, disk, data_dir),
    ensures
        complete(tables, disk.insert(wal_path_spec(data_dir), bytes), data_dir),
{
    let wal = wal_path_spec(data_dir);
    let disk2 = disk.insert(wal, bytes);
    lemma_log_name(data_dir);
    assert forall|path: Seq<char>| #[trigger]
        table_file_on(disk2, data_dir, path) <==> has_path(tables, path) by {
        assert(table_file_on(disk, data_dir, path) <==> has_path(tables, path));
    }
    assert forall|i: int| 0 <= i < tables.len() implies (#[trigger] tables[i]).path != wal by {
        assert(has_path(tables, tables[i].path));
        assert(table_file_on(disk, data_dir, tables[i].path));
    }
}

/// Writing the table with the next number adds that table file.
pub proof fn lemma_table_is_added(
    e: EngineView,
    table: TableView,
    disk: Map<Seq<char>, Seq<u8>>,
    bytes: Seq<u8>,
)
    requires
        e.wf(),
        complete(e.tables, disk, e.data_dir),
        table.path == sstable_path_spec(e.data_dir, e.next_id),
        table.id == e.next_id,
        table_spec(table.path, bytes) == Ok::<TableView, ErrorView>(table),
    ensures
        complete(e.tables.push(table), disk.insert(table.path, bytes), e.data_dir),
{
    let tables = e.tables.push(table);
    let disk2 = disk.insert(table.path, bytes);
    let n = e.tables.len() as int;
    lemma_table_file(e.data_dir, e.next_id);
    assert forall|path: Seq<char>| #[trigger]
        table_file_on(disk2, e.data_dir, path) <==> has_path(tables, path) by {
        assert(table_file_on(disk, e.data_dir, path) <==> has_path(e.tables, path));
        if has_path(e.tables, path) {
            let i = choose|i: int| 0 <= i < n && (#[trigger] e.tables[i]).path == path;
            assert(tables[i].path == path);
        }
        if has_path(tables, path) {
            let i = choose|i: int| 0 <= i < tables.len() && (#[trigger] tables[i]).path == path;
            if i < n {
                assert(e.tables[i].path == path);
            }
        }
        assert(tables[n].path == table.path);
    }
    assert forall|i: int, j: int| 0 <= i < j < tables.len() implies (#[trigger] tables[i]).id < (
    #[trigger] tables[j]).id by {
        assert(tables[i] == e.tables[i]);
        if j < n {
            assert(tables[j] == e.tables[j]);
        }
    }
    assert forall|i: int| 0 <= i < tables.len() implies table_spec(
        (#[trigger] tables[i]).path,
        disk2[tables[i].path],
    ) == Ok::<TableView, ErrorView>(tables[i]) by {
        if i < n {
            assert(tables[i] == e.tables[i]);
            lemma_paths_apart(e, i);
        }
    }
}

} // verus!
