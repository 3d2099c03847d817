//! What an engine that is opened on the files of another gives and holds.
use vstd::prelude::*;

use crate::storage::disk_model::{log_on, lookup, same_answers, scanned};
use crate::storage::engine::{opened, rows_of_log, StorageConfig};
use crate::storage::error::ErrorView;
use crate::storage::flush_laws::{after_flush, flushable, lemma_after_flush, with_table};
use crate::storage::held::{
    complete, contents, has_path, is_log, law_clean_log_replays, lemma_empty_log,
    lemma_log_adds_no_table, lemma_logged_rows, lemma_untouched, lemma_write_elsewhere, log_clean,
    readable, replays, table_file_on, table_sound, tables_map,
};
use crate::storage::paths::{law_log_is_no_table, wal_path_spec};
use crate::storage::read_laws::{lemma_same_live, lemma_same_tables_answer};
use crate::storage::rows::{
    apply, lemma_apply_is_overlay, lemma_filter_run, lemma_listing, records_of, sorted,
};
use crate::storage::sstable::{table_spec, TableView};
use crate::storage::steps::{record_of, with_entry, EngineView};
use crate::storage::table_order::has_id;
use crate::storage::wal::{
    all_logged, frame, law_long_records_are_refused, law_recover_returns_appended,
    law_torn_record_is_ignored, payload_of, record_spec, recover_spec, EntryView,
};
use crate::storage::write_laws::{lemma_entry_is_held, with_record};

verus! {

/// The last table with a number is the last of those with it.
proof fn lemma_last_of_id(tables: Seq<TableView>)
    requires
        tables.len() > 0,
    ensures
        tables.filter(has_id(tables.last().id)).len() > 0,
        tables.filter(has_id(tables.last().id)).last() == tables.last(),
        tables.filter(has_id(tables.last().id)).drop_last() == tables.drop_last().filter(
            has_id(tables.last().id),
        ),
{
    reveal(Seq::filter);
    let keep = has_id(tables.last().id);
    assert(tables.filter(keep) == tables.drop_last().filter(keep).push(tables.last()));
    assert(tables.drop_last().filter(keep).push(tables.last()).drop_last()
        =~= tables.drop_last().filter(keep));
}

/// A number that some tables have is one that a table has.
proof fn lemma_id_occurs(tables: Seq<TableView>, id: u64) -> (at: int)
    requires
        tables.filter(has_id(id)).len() > 0,
    ensures
        0 <= at < tables.len(),
        tables[at].id == id,
    decreases tables.len(),
{
    reveal(Seq::filter);
    if tables.len() == 0 {
        0
    } else if tables.last().id == id {
        tables.len() - 1
    } else {
        let at = lemma_id_occurs(tables.drop_last(), id);
        assert(tables.drop_last()[at] == tables[at]);
        at
    }
}

/// Two runs of tables in the order of their numbers, with the same tables for each
/// number, are the same.
proof fn lemma_order_is_unique(a: Seq<TableView>, b: Seq<TableView>)
    requires
        forall|i: int, j: int|
            0 <= i < j < a.len() ==> (#[trigger] a[i]).id <= (#[trigger] a[j]).id,
        forall|i: int, j: int|
            0 <= i < j < b.len() ==> (#[trigger] b[i]).id <= (#[trigger] b[j]).id,
        forall|id: u64| #[trigger] a.filter(has_id(id)) == b.filter(has_id(id)),
    ensures
        a == b,
    decreases a.len(),
{
    reveal(Seq::filter);
    if a.len() == 0 && b.len() == 0 {
        assert(a =~= b);
    } else if a.len() == 0 {
        lemma_last_of_id(b);
        assert(a.filter(has_id(b.last().id)) == b.filter(has_id(b.last().id)));
        let at = lemma_id_occurs(a, b.last().id);
    } else {
        let x = a.last().id;
        lemma_last_of_id(a);
        assert(a.filter(has_id(x)) == b.filter(has_id(x)));
        let at = lemma_id_occurs(b, x);
        let y = b.last().id;
        lemma_last_of_id(b);
        assert(a.filter(has_id(y)) == b.filter(has_id(y)));
        let back = lemma_id_occurs(a, y);
        assert(b[at].id <= b[b.len() - 1].id || at == b.len() - 1);
        assert(a[back].id <= a[a.len() - 1].id || back == a.len() - 1);
        assert(x == y);
        let fa = a.drop_last();
        let fb = b.drop_last();
        assert forall|i: int, j: int| 0 <= i < j < fa.len() implies (#[trigger] fa[i]).id <= (
        #[trigger] fa[j]).id by {
            assert(fa[i] == a[i] && fa[j] == a[j]);
        }
        assert forall|i: int, j: int| 0 <= i < j < fb.len() implies (#[trigger] fb[i]).id <= (
        #[trigger] fb[j]).id by {
            assert(fb[i] == b[i] && fb[j] == b[j]);
        }
        assert forall|id: u64| #[trigger] fa.filter(has_id(id)) == fb.filter(has_id(id)) by {
            assert(a.filter(has_id(id)) == b.filter(has_id(id)));
            if id != x {
                assert(!has_id(id)(a.last()));
                assert(!has_id(id)(b.last()));
            }
        }
        lemma_order_is_unique(fa, fb);
        assert(a =~= fa.push(a.last()));
        assert(b =~= fb.push(b.last()));
    }
}

/// Whether `found` is what opening the table files on the disk gives, each file once
/// and in any order.
pub open spec fn found_on(
    found: Seq<TableView>,
    disk: Map<Seq<char>, Seq<u8>>,
    data_dir: Seq<char>,
) -> bool {
    &&& forall|i: int, j: int|
        0 <= i < j < found.len() ==> (#[trigger] found[i]).path != (#[trigger] found[j]).path
    &&& forall|path: Seq<char>| #[trigger]
        table_file_on(disk, data_dir, path) <==> has_path(found, path)
    &&& forall|i: int|
        0 <= i < found.len() ==> table_spec(
            (#[trigger] found[i]).path,
            disk[found[i].path],
        ) == Ok::<TableView, ErrorView>(found[i])
}

/// Whether an engine is one that was opened on a disk.
pub open spec fn opened_on(
    again: EngineView,
    config: StorageConfig,
    disk: Map<Seq<char>, Seq<u8>>,
    found: Seq<TableView>,
) -> bool {
    &&& found_on(found, disk, config.data_dir@)
    &&& recover_spec(log_on(disk, config.data_dir@)) is Ok
    &&& opened(again, config, found, recover_spec(log_on(disk, config.data_dir@))->Ok_0)
}

/// What is found where all is complete is the tables, number by number.
proof fn lemma_found_tables(
    found: Seq<TableView>,
    tables: Seq<TableView>,
    disk: Map<Seq<char>, Seq<u8>>,
    data_dir: Seq<char>,
    id: u64,
)
    requires
        found_on(found, disk, data_dir),
        complete(tables, disk, data_dir),
    ensures
        found.filter(has_id(id)) == tables.filter(has_id(id)),
{
    let keep = has_id(id);
    assert forall|i: int| 0 <= i < found.len() implies has_path(
        tables,
        (#[trigger] found[i]).path,
    ) by {
        assert(has_path(found, found[i].path));
        assert(table_file_on(disk, data_dir, found[i].path));
    }
    assert forall|j: int| 0 <= j < tables.len() implies has_path(
        found,
        (#[trigger] tables[j]).path,
    ) by {
        assert(has_path(tables, tables[j].path));
        assert(table_file_on(disk, data_dir, tables[j].path));
    }
    if exists|j: int| 0 <= j < tables.len() && (#[trigger] tables[j]).id == id {
        let j = choose|j: int| 0 <= j < tables.len() && (#[trigger] tables[j]).id == id;
        assert(has_path(found, tables[j].path));
        let i = choose|i: int|
            0 <= i < found.len() && (#[trigger] found[i]).path == tables[j].path;
        assert(found[i] == tables[j]);
        assert forall|x: int| 0 <= x < found.len() && x != i implies !keep(#[trigger] found[x]) by {
            if found[x].id == id {
                assert(has_path(tables, found[x].path));
                let y = choose|y: int|
                    0 <= y < tables.len() && (#[trigger] tables[y]).path == found[x].path;
                assert(tables[y] == found[x]);
                assert(y == j);
            }
        }
        lemma_filter_run(found, keep, i, i + 1);
        lemma_filter_run(tables, keep, j, j + 1);
        assert(found.subrange(i, i + 1) =~= tables.subrange(j, j + 1));
    } else {
        assert forall|x: int| 0 <= x < found.len() implies !keep(#[trigger] found[x]) by {
            assert(has_path(tables, found[x].path));
            let y = choose|y: int|
                0 <= y < tables.len() && (#[trigger] tables[y]).path == found[x].path;
            assert(tables[y] == found[x]);
        }
        lemma_filter_run(found, keep, 0, 0);
        lemma_filter_run(tables, keep, 0, 0);
        assert(found.subrange(0, 0) =~= tables.subrange(0, 0));
    }
}

/// An engine that is opened on a disk has the tables that the disk has, from the oldest
/// to the newest.
pub proof fn lemma_opened_tables(
    again: EngineView,
    config: StorageConfig,
    disk: Map<Seq<char>, Seq<u8>>,
    found: Seq<TableView>,
    tables: Seq<TableView>,
)
    requires
        opened_on(again, config, disk, found),
        complete(tables, disk, config.data_dir@),
    ensures
        again.tables == tables,
        forall|i: int| 0 <= i < tables.len() ==> (#[trigger] tables[i]).id < again.next_id,
{
    assert forall|id: u64| #[trigger]
        again.tables.filter(has_id(id)) == tables.filter(has_id(id)) by {
        lemma_found_tables(found, tables, disk, config.data_dir@, id);
    }
    lemma_order_is_unique(again.tables, tables);
    assert forall|i: int| 0 <= i < tables.len() implies (#[trigger] tables[i]).id
        < again.next_id by {
        assert(again.tables[i].id <= again.tables[tables.len() - 1].id);
    }
}

/// An engine that is opened on the files of another gives the same answers, errors
/// among them: it has the same rows and the same tables. The table files are still
/// exactly its tables, the log still gives back the rows, a log of whole records still
/// is one, and what was intact still is, and holds the same.
pub proof fn law_reopened_engine_answers_the_same(
    e: EngineView,
    disk: Map<Seq<char>, Seq<u8>>,
    config: StorageConfig,
    found: Seq<TableView>,
    again: EngineView,
)
    requires
        e.wf(),
        complete(e.tables, disk, e.data_dir),
        replays(e, disk),
        config.data_dir@ == e.data_dir,
        opened_on(again, config, disk, found),
    ensures
        again.rows == e.rows,
        again.tables == e.tables,
        again.data_dir == e.data_dir,
        again.wf(),
        same_answers(e, disk, again, disk),
        complete(again.tables, disk, again.data_dir),
        readable(e, disk) ==> readable(again, disk) && contents(again, disk) == contents(e, disk),
        log_clean(e, disk) ==> log_clean(again, disk),
        replays(again, disk),
{
    lemma_opened_tables(again, config, disk, found, e.tables);
    lemma_listing(e.rows);
    lemma_same_tables_answer(e, disk, again, disk);
}

/// An engine that is opened where no file is yet holds nothing, and its files are in
/// order.
pub proof fn law_new_engine_is_empty(
    e: EngineView,
    config: StorageConfig,
    found: Seq<TableView>,
)
    requires
        opened_on(e, config, Map::empty(), found),
    ensures
        readable(e, Map::empty()),
        complete(e.tables, Map::empty(), e.data_dir),
        log_clean(e, Map::empty()),
        replays(e, Map::empty()),
        contents(e, Map::empty()) == Map::<Seq<u8>, Option<Seq<u8>>>::empty(),
{
    let disk = Map::<Seq<char>, Seq<u8>>::empty();
    let none = Seq::<(Seq<u8>, Option<Seq<u8>>)>::empty();
    let tables = Seq::<TableView>::empty();
    law_recover_returns_appended(Seq::empty());
    assert(all_logged(Seq::empty()) =~= Seq::empty());
    assert(rows_of_log(Seq::empty()) =~= none);
    lemma_listing(none);
    lemma_opened_tables(e, config, disk, found, tables);
    lemma_empty_log(e, disk);
}

/// A write that was logged is not lost, though a crash came before it took its place:
/// an engine that is opened with its record in the log gives what was written, and for
/// all other keys what the other engine gave.
pub proof fn law_logged_write_survives(
    e: EngineView,
    disk: Map<Seq<char>, Seq<u8>>,
    entry: EntryView,
    config: StorageConfig,
    found: Seq<TableView>,
    again: EngineView,
)
    requires
        e.wf(),
        complete(e.tables, disk, e.data_dir),
        log_clean(e, disk),
        record_spec(entry) is Ok,
        config.data_dir@ == e.data_dir,
        opened_on(again, config, with_record(e, disk, entry), found),
    ensures
        lookup(again, with_record(e, disk, entry), entry.key) == Ok::<
            Option<Seq<u8>>,
            ErrorView,
        >(record_of(entry)),
        forall|other: Seq<u8>|
            other != entry.key ==> #[trigger] lookup(
                again,
                with_record(e, disk, entry),
                other,
            ) == lookup(e, disk, other),
        complete(again.tables, with_record(e, disk, entry), again.data_dir),
        log_clean(again, with_record(e, disk, entry)),
        replays(again, with_record(e, disk, entry)),
        readable(e, disk) ==> readable(again, with_record(e, disk, entry)) && contents(
            again,
            with_record(e, disk, entry),
        ) == contents(e, disk).insert(entry.key, record_of(entry)),
{
    let e1 = with_entry(e, entry);
    let disk1 = with_record(e, disk, entry);
    lemma_entry_is_held(e, disk, entry);
    law_clean_log_replays(e1, disk1);
    law_reopened_engine_answers_the_same(e1, disk1, config, found, again);
}

/// A write of whose record only a part was logged leaves no trace: an engine that is
/// opened then gives the answers that were given before the write. The part stays in
/// the log, and recovery stops at it. What is written behind it is not covered here: no
/// law says that a later opening finds it.
pub proof fn law_torn_write_leaves_no_trace(
    e: EngineView,
    disk: Map<Seq<char>, Seq<u8>>,
    entry: EntryView,
    written: int,
    torn: Map<Seq<char>, Seq<u8>>,
    config: StorageConfig,
    found: Seq<TableView>,
    again: EngineView,
)
    requires
        e.wf(),
        complete(e.tables, disk, e.data_dir),
        log_clean(e, disk),
        record_spec(entry) is Ok,
        0 <= written < frame(payload_of(entry)).len(),
        torn == disk.insert(
            wal_path_spec(e.data_dir),
            log_on(disk, e.data_dir) + frame(payload_of(entry)).take(written),
        ),
        config.data_dir@ == e.data_dir,
        opened_on(again, config, torn, found),
    ensures
        same_answers(e, disk, again, torn),
        readable(e, disk) ==> readable(again, torn) && contents(again, torn) == contents(e, disk),
{
    let wal = wal_path_spec(e.data_dir);
    let log = log_on(disk, e.data_dir);
    let torn_log = log + frame(payload_of(entry)).take(written);
    lemma_write_elsewhere(e, disk, wal, torn_log);
    lemma_log_adds_no_table(e.tables, disk, e.data_dir, torn_log);
    let entries = choose|entries: Seq<EntryView>| #[trigger]
        is_log(log, entries) && records_of(e.rows) == apply(
            Map::empty(),
            rows_of_log(entries),
        );
    law_long_records_are_refused(entries, frame(payload_of(entry)).take(written));
    law_torn_record_is_ignored(entries, entry, written);
    lemma_logged_rows(entries);
    law_reopened_engine_answers_the_same(e, torn, config, found, again);
    lemma_same_tables_answer(e, disk, e, torn);
    assert forall|key: Seq<u8>| #[trigger] lookup(again, torn, key) == lookup(e, disk, key) by {
        assert(lookup(again, torn, key) == lookup(e, torn, key));
    }
    assert forall|prefix: Seq<u8>, limit: nat| #[trigger]
        scanned(again, torn, prefix, limit) == scanned(e, disk, prefix, limit) by {
        assert(scanned(again, torn, prefix, limit) == scanned(e, torn, prefix, limit));
    }
    if readable(e, disk) {
        lemma_untouched(e, disk, torn);
    }
}

/// Rows written twice are as if written once.
proof fn lemma_apply_twice(
    m: Map<Seq<u8>, Option<Seq<u8>>>,
    rows: Seq<(Seq<u8>, Option<Seq<u8>>)>,
)
    requires
        sorted(rows),
    ensures
        apply(apply(m, rows), rows) == apply(m, rows),
{
    lemma_apply_is_overlay(m, rows);
    lemma_apply_is_overlay(apply(m, rows), rows);
    assert(apply(apply(m, rows), rows) =~= apply(m, rows));
}

/// A crash during a flush loses nothing: an engine that is opened when the new
/// table was written and the log not yet emptied gives the same answers.
pub proof fn law_crash_before_the_log_is_emptied(
    e: EngineView,
    disk: Map<Seq<char>, Seq<u8>>,
    config: StorageConfig,
    found: Seq<TableView>,
    again: EngineView,
)
    requires
        readable(e, disk),
        complete(e.tables, disk, e.data_dir),
        replays(e, disk),
        flushable(e),
        e.rows.len() > 0,
        config.data_dir@ == e.data_dir,
        opened_on(again, config, with_table(e, disk), found),
    ensures
        readable(again, with_table(e, disk)),
        complete(again.tables, with_table(e, disk), again.data_dir),
        contents(again, with_table(e, disk)) == contents(e, disk),
        same_answers(e, disk, again, with_table(e, disk)),
        log_clean(e, disk) ==> log_clean(again, with_table(e, disk)),
{
    let disk1 = with_table(e, disk);
    let flushed = after_flush(e);
    law_log_is_no_table(e.data_dir, e.next_id);
    assert(log_on(disk1, e.data_dir) == log_on(disk, e.data_dir));
    lemma_after_flush(e, disk);
    lemma_opened_tables(again, config, disk1, found, flushed.tables);
    lemma_listing(e.rows);
    lemma_apply_twice(tables_map(e.tables, disk), e.rows);
    assert forall|i: int| 0 <= i < again.tables.len() implies table_sound(
        #[trigger] again.tables[i],
        disk1,
    ) && again.tables[i].wf() by {
        assert(table_sound(flushed.tables[i], disk1));
    }
    lemma_same_live(e, disk, again, disk1);
}

} // verus!
