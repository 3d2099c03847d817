//! What a write leaves.
use vstd::prelude::*;

use crate::storage::disk_model::{flush_left, log_on, lookup, perform, run_flush, run_write};
use crate::storage::engine::rows_of_log;
use crate::storage::error::ErrorView;
use crate::storage::flush_laws::{
    after_flush, disk_after_flush, flushable, law_flush_succeeds, lemma_after_flush,
    lemma_flush_runs, lemma_lookup_after_flush,
};
use crate::storage::held::{
    complete, contents, is_log, law_clean_log_replays, lemma_log_adds_no_table, lemma_untouched,
    lemma_write_elsewhere, log_clean, readable, replays, tables_map, tables_untouched,
};
use crate::storage::memtable::total_size;
use crate::storage::merging::lemma_insert_listing;
use crate::storage::paths::wal_path_spec;
use crate::storage::read_laws::lemma_lookup_in_tables;
use crate::storage::rows::{apply, lemma_apply_is_overlay, lemma_no_empty_key, records_of};
use crate::storage::sstable::MetadataView;
use crate::storage::steps::{
    commit, entry_fits, flush_fits, flush_in_write, flush_next, flush_start, record_of, row_of,
    with_entry, write_next, write_start, ActionView, EngineView, FlushView, StepView, WriteView,
};
use crate::storage::wal::{
    frame, law_long_records_are_refused, law_recover_returns_appended, loggable, payload_of,
    record_spec, EntryView, WalOp,
};

verus! {

/// A flush within a write runs as it does alone.
proof fn lemma_flush_in_write(
    e: EngineView,
    disk: Map<Seq<char>, Seq<u8>>,
    step: StepView<FlushView, Option<MetadataView>>,
)
    ensures
        ({
            let (e2, disk2, result) = run_flush(e, disk, step);
            run_write(e, disk, flush_in_write(step)) == (
                e2,
                disk2,
                match result {
                    Ok(_) => Ok::<(), ErrorView>(()),
                    Err(error) => Err(error),
                },
            )
        }),
    decreases flush_left(step),
{
    if let StepView::Perform(flush, action) = step {
        let (disk2, event) = perform(disk, e.data_dir, action);
        if flush_fits(e, flush) {
            let (e2, step2) = flush_next(e, flush, event);
            lemma_flush_in_write(e2, disk2, step2);
        }
    }
}

/// Whether a write can be logged and counted, and the rows fit in a table if it takes
/// them to the threshold.
pub open spec fn writable(e: EngineView, entry: EntryView) -> bool {
    &&& record_spec(entry) is Ok
    &&& entry_fits(e, entry)
    &&& total_size(with_entry(e, entry).rows) >= e.threshold ==> flushable(with_entry(e, entry))
}

/// The disk of an engine with an entry in its log.
pub open spec fn with_record(
    e: EngineView,
    disk: Map<Seq<char>, Seq<u8>>,
    entry: EntryView,
) -> Map<Seq<char>, Seq<u8>> {
    disk.insert(
        wal_path_spec(e.data_dir),
        log_on(disk, e.data_dir) + frame(payload_of(entry)),
    )
}

/// A write is logged and then takes its place.
proof fn lemma_write_runs(e: EngineView, disk: Map<Seq<char>, Seq<u8>>, entry: EntryView)
    requires
        record_spec(entry) is Ok,
        entry_fits(e, entry),
    ensures
        ({
            let (e1, step1) = commit(e, entry);
            run_write(e, disk, write_start(e, entry)) == run_write(
                e1,
                with_record(e, disk, entry),
                step1,
            )
        }),
{
    let disk1 = with_record(e, disk, entry);
    let syncing = StepView::<WriteView, ()>::Perform(
        WriteView::Syncing(entry),
        ActionView::SyncWal,
    );
    if e.sync_writes {
        assert(run_write(e, disk, write_start(e, entry)) == run_write(e, disk1, syncing));
    }
}

/// An engine with an entry among its rows is in order.
pub proof fn lemma_with_entry(e: EngineView, entry: EntryView)
    requires
        e.wf(),
        entry.key.len() > 0,
    ensures
        with_entry(e, entry).wf(),
        records_of(with_entry(e, entry).rows) == records_of(e.rows).insert(
            entry.key,
            record_of(entry),
        ),
{
    let e1 = with_entry(e, entry);
    lemma_insert_listing(e.rows, entry.key, record_of(entry));
    lemma_no_empty_key(e.rows);
    lemma_no_empty_key(e1.rows);
    assert forall|i: int| 0 <= i < e1.tables.len() implies (#[trigger] e1.tables[i]).wf() by {
        assert(e.tables[i].wf());
    }
}

/// What an engine with an entry in its log and among its rows gives and holds.
pub proof fn lemma_entry_is_held(
    e: EngineView,
    disk: Map<Seq<char>, Seq<u8>>,
    entry: EntryView,
)
    requires
        e.wf(),
        record_spec(entry) is Ok,
    ensures
        with_entry(e, entry).wf(),
        tables_untouched(e, disk, with_record(e, disk, entry)),
        lookup(with_entry(e, entry), with_record(e, disk, entry), entry.key) == Ok::<
            Option<Seq<u8>>,
            ErrorView,
        >(record_of(entry)),
        forall|other: Seq<u8>|
            other != entry.key ==> #[trigger] lookup(
                with_entry(e, entry),
                with_record(e, disk, entry),
                other,
            ) == lookup(e, disk, other),
        readable(e, disk) ==> readable(with_entry(e, entry), with_record(e, disk, entry))
            && contents(with_entry(e, entry), with_record(e, disk, entry)) == contents(
            e,
            disk,
        ).insert(entry.key, record_of(entry)),
        complete(e.tables, disk, e.data_dir) ==> complete(
            e.tables,
            with_record(e, disk, entry),
            e.data_dir,
        ),
        log_clean(e, disk) ==> log_clean(with_entry(e, entry), with_record(e, disk, entry)),
        log_clean(e, disk) && replays(e, disk) && loggable(entry) ==> replays(
            with_entry(e, entry),
            with_record(e, disk, entry),
        ),
{
    let e1 = with_entry(e, entry);
    let disk1 = with_record(e, disk, entry);
    let wal = wal_path_spec(e.data_dir);
    let log = log_on(disk, e.data_dir) + frame(payload_of(entry));
    lemma_with_entry(e, entry);
    lemma_write_elsewhere(e, disk, wal, log);
    assert forall|other: Seq<u8>| other != entry.key implies #[trigger] lookup(e1, disk1, other)
        == lookup(e, disk, other) by {
        if !records_of(e.rows).contains_key(other) {
            lemma_lookup_in_tables(e, disk, e1, disk1, other);
        }
    }
    if readable(e, disk) {
        let m = tables_map(e.tables, disk);
        lemma_untouched(e, disk, disk1);
        lemma_apply_is_overlay(m, e.rows);
        lemma_apply_is_overlay(m, e1.rows);
        assert(contents(e1, disk1) =~= contents(e, disk).insert(entry.key, record_of(entry)));
    }
    if complete(e.tables, disk, e.data_dir) {
        lemma_log_adds_no_table(e.tables, disk, e.data_dir, log);
    }
    if log_clean(e, disk) {
        let old_log = log_on(disk, e.data_dir);
        let entries = choose|entries: Seq<EntryView>| #[trigger]
            is_log(old_log, entries) && records_of(e.rows) == apply(
                Map::empty(),
                rows_of_log(entries),
            );
        let more = entries.push(entry);
        assert(more.drop_last() =~= entries);
        assert forall|i: int| 0 <= i < more.len() implies record_spec(
            #[trigger] more[i],
        ) is Ok by {
            if i < entries.len() {
                assert(more[i] == entries[i]);
            }
        }
        assert(is_log(log_on(disk1, e1.data_dir), more));
        assert(rows_of_log(more).drop_last() =~= rows_of_log(entries));
        assert(rows_of_log(more).last() == row_of(entry));
        if replays(e, disk) && loggable(entry) {
            assert(old_log + Seq::empty() =~= old_log);
            law_long_records_are_refused(entries, Seq::empty());
            assert forall|i: int| 0 <= i < more.len() implies loggable(#[trigger] more[i]) by {
                if i < entries.len() {
                    assert(more[i] == entries[i]);
                }
            }
            law_recover_returns_appended(more);
            law_clean_log_replays(e1, disk1);
        }
    }
}

/// A write ends well exactly if it can be logged and counted, and the rows fit in a
/// table if it takes them to the threshold.
pub proof fn law_write_succeeds(e: EngineView, disk: Map<Seq<char>, Seq<u8>>, entry: EntryView)
    requires
        e.wf(),
    ensures
        run_write(e, disk, write_start(e, entry)).2 is Ok <==> writable(e, entry),
{
    let e1 = with_entry(e, entry);
    let disk1 = with_record(e, disk, entry);
    if record_spec(entry) is Ok && entry_fits(e, entry) {
        lemma_write_runs(e, disk, entry);
        lemma_with_entry(e, entry);
        if total_size(e1.rows) >= e.threshold {
            lemma_flush_in_write(e1, disk1, flush_start(e1));
            law_flush_succeeds(e1, disk1);
        }
    }
}

/// A write that takes the rows to the threshold flushes them.
pub proof fn lemma_write_flushes(e: EngineView, disk: Map<Seq<char>, Seq<u8>>, entry: EntryView)
    requires
        e.wf(),
        writable(e, entry),
        total_size(with_entry(e, entry).rows) >= e.threshold,
    ensures
        with_entry(e, entry).rows.len() > 0,
        run_write(e, disk, write_start(e, entry)) == (
            after_flush(with_entry(e, entry)),
            disk_after_flush(with_entry(e, entry), with_record(e, disk, entry)),
            Ok::<(), ErrorView>(()),
        ),
{
    let e1 = with_entry(e, entry);
    let disk1 = with_record(e, disk, entry);
    lemma_write_runs(e, disk, entry);
    lemma_with_entry(e, entry);
    assert(e1.rows.len() > 0) by {
        assert(records_of(e1.rows).contains_key(entry.key));
    }
    lemma_flush_in_write(e1, disk1, flush_start(e1));
    lemma_flush_runs(e1, disk1);
}

/// A write that ends well takes effect: a lookup of its key gives the record that was
/// written, and lookups of all other keys give what they gave, errors among them. The
/// log is only appended to, unless the write takes the rows to the threshold; they do
/// not stay there. What is at the paths of the tables is as it was. What was intact
/// stays intact, and what is held changes in the one key that was written. A log of
/// whole records stays one. It still gives back the rows, if it did and recovery takes a
/// record of that length; and, whatever the length, if the write brings about a flush,
/// which leaves the log empty.
pub proof fn law_write_takes_effect(
    e: EngineView,
    disk: Map<Seq<char>, Seq<u8>>,
    entry: EntryView,
)
    requires
        e.wf(),
    ensures
        ({
            let (e2, disk2, result) = run_write(e, disk, write_start(e, entry));
            result is Ok ==> {
                &&& lookup(e2, disk2, entry.key) == Ok::<Option<Seq<u8>>, ErrorView>(
                    record_of(entry),
                )
                &&& forall|other: Seq<u8>|
                    other != entry.key ==> #[trigger] lookup(e2, disk2, other) == lookup(
                        e,
                        disk,
                        other,
                    )
                &&& e2.wf() && e2.data_dir == e.data_dir && e2.threshold == e.threshold
                &&& total_size(with_entry(e, entry).rows) < e.threshold ==> e2 == with_entry(
                    e,
                    entry,
                ) && disk2 == with_record(e, disk, entry)
                &&& total_size(with_entry(e, entry).rows) >= e.threshold ==> e2.rows.len() == 0
                    && e2.tables.len() == e.tables.len() + 1
                &&& e.threshold > 0 ==> total_size(e2.rows) < e.threshold
                &&& tables_untouched(e, disk, disk2)
                &&& readable(e, disk) ==> readable(e2, disk2) && contents(e2, disk2) == contents(
                    e,
                    disk,
                ).insert(entry.key, record_of(entry))
                &&& complete(e.tables, disk, e.data_dir) ==> complete(
                    e2.tables,
                    disk2,
                    e2.data_dir,
                )
                &&& log_clean(e, disk) ==> log_clean(e2, disk2)
                &&& log_clean(e, disk) && replays(e, disk) && loggable(entry) ==> replays(e2, disk2)
                &&& total_size(with_entry(e, entry).rows) >= e.threshold ==> log_on(
                    disk2,
                    e2.data_dir,
                ) == Seq::<u8>::empty() && log_clean(e2, disk2) && replays(e2, disk2)
            }
        }),
{
    let e1 = with_entry(e, entry);
    let disk1 = with_record(e, disk, entry);
    let (e2, disk2, result) = run_write(e, disk, write_start(e, entry));
    law_write_succeeds(e, disk, entry);
    if result is Ok {
        lemma_write_runs(e, disk, entry);
        lemma_entry_is_held(e, disk, entry);
        if total_size(e1.rows) >= e.threshold {
            lemma_write_flushes(e, disk, entry);
            lemma_after_flush(e1, disk1);
            assert forall|key: Seq<u8>| #[trigger] lookup(e2, disk2, key) == lookup(
                e1,
                disk1,
                key,
            ) by {
                lemma_lookup_after_flush(e1, disk1, key);
            }
            assert forall|i: int| 0 <= i < e.tables.len() implies disk2.contains_key(
                (#[trigger] e.tables[i]).path,
            ) == disk.contains_key(e.tables[i].path) && disk2[e.tables[i].path]
                == disk[e.tables[i].path] by {
                assert(e1.tables[i] == e.tables[i]);
            }
        }
    }
}

/// What was put is what a lookup gives, and a put leaves the lookups of all other keys
/// as they were, whether or not it brings about a flush.
pub proof fn law_get_after_put(
    e: EngineView,
    disk: Map<Seq<char>, Seq<u8>>,
    key: Seq<u8>,
    value: Seq<u8>,
)
    requires
        e.wf(),
    ensures
        ({
            let entry = EntryView { op: WalOp::Put, key, value };
            let (e2, disk2, result) = run_write(e, disk, write_start(e, entry));
            result is Ok ==> {
                &&& lookup(e2, disk2, key) == Ok::<Option<Seq<u8>>, ErrorView>(Some(value))
                &&& forall|other: Seq<u8>|
                    other != key ==> #[trigger] lookup(e2, disk2, other) == lookup(e, disk, other)
            }
        }),
{
    law_write_takes_effect(e, disk, EntryView { op: WalOp::Put, key, value });
}

/// A deleted key has no value, whether or not it had one; and a delete leaves the
/// lookups of all other keys as they were.
pub proof fn law_get_after_delete(
    e: EngineView,
    disk: Map<Seq<char>, Seq<u8>>,
    key: Seq<u8>,
    value: Seq<u8>,
)
    requires
        e.wf(),
    ensures
        ({
            let entry = EntryView { op: WalOp::Delete, key, value };
            let (e2, disk2, result) = run_write(e, disk, write_start(e, entry));
            result is Ok ==> {
                &&& lookup(e2, disk2, key) == Ok::<Option<Seq<u8>>, ErrorView>(None)
                &&& forall|other: Seq<u8>|
                    other != key ==> #[trigger] lookup(e2, disk2, other) == lookup(e, disk, other)
            }
        }),
{
    law_write_takes_effect(e, disk, EntryView { op: WalOp::Delete, key, value });
}

/// A write without a key is refused, and nothing is done.
pub proof fn law_empty_key_is_refused(
    e: EngineView,
    disk: Map<Seq<char>, Seq<u8>>,
    entry: EntryView,
)
    requires
        entry.key.len() == 0,
    ensures
        run_write(e, disk, write_start(e, entry)) == (
            e,
            disk,
            Err::<(), ErrorView>(ErrorView::InvalidInput("keys must not be empty"@)),
        ),
{
}

/// A write whose logging failed leaves the engine as it was.
pub proof fn law_failed_append_changes_nothing(e: EngineView, entry: EntryView, error: ErrorView)
    ensures
        write_next(e, WriteView::Appending(entry), Err(error)) == (
            e,
            StepView::<WriteView, ()>::Done(Err(error)),
        ),
        write_next(e, WriteView::Syncing(entry), Err(error)) == (
            e,
            StepView::<WriteView, ()>::Done(Err(error)),
        ),
{
}

} // verus!
