//! What lookups give after any run of operations.
use vstd::prelude::*;

use crate::storage::compaction_laws::law_compaction_keeps_answers;
use crate::storage::disk_model::{lookup, run_compact, run_flush, run_write, same_answers};
use crate::storage::engine::StorageConfig;
use crate::storage::error::ErrorView;
use crate::storage::flush_laws::law_flush_keeps_answers;
use crate::storage::held::{complete, law_clean_log_replays, log_clean, readable, replays};
use crate::storage::memtable::total_size;
use crate::storage::recovery_laws::{law_reopened_engine_answers_the_same, opened_on};
use crate::storage::sstable::TableView;
use crate::storage::steps::{
    compact_start, flush_start, record_of, with_entry, write_start, EngineView,
};
use crate::storage::wal::{loggable, EntryView, WalOp};
use crate::storage::write_laws::law_write_takes_effect;

verus! {

/// An operation on an engine.
pub enum Operation {
    Write(EntryView),
    Flush,
    Compact,
    /// The engine is let go of and opened again on its files.
    Reopen,
}

/// Whether an engine is one that was opened on a disk with this directory.
pub open spec fn opened_again(
    again: EngineView,
    disk: Map<Seq<char>, Seq<u8>>,
    data_dir: Seq<char>,
) -> bool {
    exists|config: StorageConfig, found: Seq<TableView>|
        config.data_dir@ == data_dir && #[trigger] opened_on(again, config, disk, found)
}

/// Whether an operation ends well and leads from an engine and its disk to others.
pub open spec fn leads_to(
    before: (EngineView, Map<Seq<char>, Seq<u8>>),
    operation: Operation,
    after: (EngineView, Map<Seq<char>, Seq<u8>>),
) -> bool {
    let (e, disk) = before;
    match operation {
        Operation::Write(entry) => {
            let (e2, disk2, result) = run_write(e, disk, write_start(e, entry));
            result is Ok && after == (e2, disk2)
        },
        Operation::Flush => {
            let (e2, disk2, result) = run_flush(e, disk, flush_start(e));
            result is Ok && after == (e2, disk2)
        },
        Operation::Compact => {
            let (e2, disk2, result) = run_compact(e, disk, compact_start(e));
            result is Ok && after == (e2, disk2)
        },
        Operation::Reopen => opened_again(after.0, disk, e.data_dir) && after.1 == disk,
    }
}

/// Whether the table files on the disk are exactly the tables of an engine, and its log
/// is made of the whole records of the writes that its rows come from.
pub open spec fn settled(state: (EngineView, Map<Seq<char>, Seq<u8>>)) -> bool {
    &&& state.0.wf()
    &&& complete(state.0.tables, state.1, state.0.data_dir)
    &&& log_clean(state.0, state.1)
}

/// An operation that ends well keeps the files those of the engine, does not move them
/// elsewhere, and leaves them intact if they were.
pub proof fn law_operation_keeps_files(
    before: (EngineView, Map<Seq<char>, Seq<u8>>),
    operation: Operation,
    after: (EngineView, Map<Seq<char>, Seq<u8>>),
)
    requires
        settled(before),
        leads_to(before, operation, after),
    ensures
        settled(after),
        after.0.data_dir == before.0.data_dir,
        readable(before.0, before.1) ==> readable(after.0, after.1),
        operation is Reopen ==> replays(after.0, after.1),
        operation is Flush || operation is Compact ==> (replays(before.0, before.1) ==> replays(
            after.0,
            after.1,
        )),
{
    let (e, disk) = before;
    match operation {
        Operation::Write(entry) => {
            law_write_takes_effect(e, disk, entry);
        },
        Operation::Flush => {
            law_flush_keeps_answers(e, disk);
        },
        Operation::Compact => {
            law_compaction_keeps_answers(e, disk);
        },
        Operation::Reopen => {
            let (config, found) = choose|config: StorageConfig, found: Seq<TableView>|
                config.data_dir@ == e.data_dir && #[trigger] opened_on(
                    after.0,
                    config,
                    disk,
                    found,
                );
            law_clean_log_replays(e, disk);
            law_reopened_engine_answers_the_same(e, disk, config, found, after.0);
        },
    }
}

/// An operation that ends well changes what lookups give in no other key than the one
/// it writes; a compaction, if the files were intact.
pub proof fn law_operation_keeps_lookups(
    before: (EngineView, Map<Seq<char>, Seq<u8>>),
    operation: Operation,
    after: (EngineView, Map<Seq<char>, Seq<u8>>),
)
    requires
        settled(before),
        leads_to(before, operation, after),
        operation is Compact ==> readable(before.0, before.1),
    ensures
        forall|key: Seq<u8>| #[trigger]
            lookup(after.0, after.1, key) == match operation {
                Operation::Write(entry) => if entry.key == key {
                    Ok::<Option<Seq<u8>>, ErrorView>(record_of(entry))
                } else {
                    lookup(before.0, before.1, key)
                },
                _ => lookup(before.0, before.1, key),
            },
{
    let (e, disk) = before;
    match operation {
        Operation::Write(entry) => {
            law_write_takes_effect(e, disk, entry);
        },
        Operation::Flush => {
            law_flush_keeps_answers(e, disk);
        },
        Operation::Compact => {
            law_compaction_keeps_answers(e, disk);
        },
        Operation::Reopen => {
            let (config, found) = choose|config: StorageConfig, found: Seq<TableView>|
                config.data_dir@ == e.data_dir && #[trigger] opened_on(
                    after.0,
                    config,
                    disk,
                    found,
                );
            law_clean_log_replays(e, disk);
            law_reopened_engine_answers_the_same(e, disk, config, found, after.0);
        },
    }
}

/// Whether operations lead, one after the other, through engines and disks.
pub open spec fn is_history(
    states: Seq<(EngineView, Map<Seq<char>, Seq<u8>>)>,
    operations: Seq<Operation>,
) -> bool {
    &&& states.len() == operations.len() + 1
    &&& forall|i: int|
        0 <= i < operations.len() ==> leads_to(
            states[i],
            #[trigger] operations[i],
            states[i + 1],
        )
}

/// All but the last step of a history is a history.
proof fn lemma_earlier_history(
    states: Seq<(EngineView, Map<Seq<char>, Seq<u8>>)>,
    operations: Seq<Operation>,
)
    requires
        is_history(states, operations),
        operations.len() > 0,
    ensures
        is_history(states.drop_last(), operations.drop_last()),
        leads_to(states.drop_last().last(), operations.last(), states.last()),
{
    let n = operations.len() - 1;
    let earlier = operations.drop_last();
    let front = states.drop_last();
    assert forall|i: int| 0 <= i < earlier.len() implies leads_to(
        front[i],
        #[trigger] earlier[i],
        front[i + 1],
    ) by {
        assert(earlier[i] == operations[i]);
    }
    assert(leads_to(states[n], operations[n], states[n + 1]));
}

/// After any run of operations that all end well the files are those of the engine, and
/// intact if they were at the beginning.
pub proof fn law_history_keeps_files(
    states: Seq<(EngineView, Map<Seq<char>, Seq<u8>>)>,
    operations: Seq<Operation>,
)
    requires
        is_history(states, operations),
        settled(states[0]),
    ensures
        settled(states.last()),
        readable(states[0].0, states[0].1) ==> readable(states.last().0, states.last().1),
    decreases operations.len(),
{
    if operations.len() > 0 {
        let front = states.drop_last();
        lemma_earlier_history(states, operations);
        law_history_keeps_files(front, operations.drop_last());
        law_operation_keeps_files(front.last(), operations.last(), states.last());
    }
}

/// Closing an engine and opening it again changes nothing, after any run of writes,
/// flushes, compactions and openings that all end well: the engine that was opened
/// gives the same answers to all lookups and scans, errors among them, and has the same
/// rows in memory, of the same size, and the same tables.
pub proof fn law_opening_gives_the_engine_back(
    states: Seq<(EngineView, Map<Seq<char>, Seq<u8>>)>,
    operations: Seq<Operation>,
    again: EngineView,
)
    requires
        is_history(states, operations),
        settled(states[0]),
        opened_again(again, states.last().1, states.last().0.data_dir),
    ensures
        ({
            let (e, disk) = states.last();
            &&& same_answers(e, disk, again, disk)
            &&& again.rows == e.rows
            &&& again.tables == e.tables
            &&& again.rows.len() == e.rows.len()
            &&& total_size(again.rows) == total_size(e.rows)
            &&& again.tables.len() == e.tables.len()
            &&& settled((again, disk))
        }),
{
    let (e, disk) = states.last();
    law_history_keeps_files(states, operations);
    let (config, found) = choose|config: StorageConfig, found: Seq<TableView>|
        config.data_dir@ == e.data_dir && #[trigger] opened_on(again, config, disk, found);
    law_clean_log_replays(e, disk);
    law_reopened_engine_answers_the_same(e, disk, config, found, again);
}

/// After any run of operations that all end well the log is one that recovery takes, if
/// it was at the beginning and recovery takes the record of each write, or else the
/// write brings about a flush.
pub proof fn law_log_stays_recoverable(
    states: Seq<(EngineView, Map<Seq<char>, Seq<u8>>)>,
    operations: Seq<Operation>,
)
    requires
        is_history(states, operations),
        settled(states[0]),
        replays(states[0].0, states[0].1),
        forall|i: int|
            0 <= i < operations.len() ==> ((#[trigger] operations[i]) matches Operation::Write(
                entry,
            ) ==> loggable(entry) || total_size(with_entry(states[i].0, entry).rows)
                >= states[i].0.threshold),
    ensures
        replays(states.last().0, states.last().1),
    decreases operations.len(),
{
    if operations.len() > 0 {
        let n = operations.len() - 1;
        let front = states.drop_last();
        let earlier = operations.drop_last();
        let (e, disk) = front.last();
        lemma_earlier_history(states, operations);
        assert forall|i: int| 0 <= i < earlier.len() implies ((
        #[trigger] earlier[i]) matches Operation::Write(entry) ==> loggable(entry) || total_size(
            with_entry(front[i].0, entry).rows,
        ) >= front[i].0.threshold) by {
            assert(earlier[i] == operations[i]);
        }
        law_log_stays_recoverable(front, earlier);
        law_history_keeps_files(front, earlier);
        law_operation_keeps_files(front.last(), operations.last(), states.last());
        assert(operations.last() == operations[n]);
        if let Operation::Write(entry) = operations.last() {
            law_write_takes_effect(e, disk, entry);
        }
    }
}

/// What the last write to a key wrote, or what the key had before where none wrote to
/// it.
pub open spec fn last_written(
    operations: Seq<Operation>,
    key: Seq<u8>,
    before: Option<Seq<u8>>,
) -> Option<Seq<u8>>
    decreases operations.len(),
{
    if operations.len() == 0 {
        before
    } else {
        let earlier = last_written(operations.drop_last(), key, before);
        match operations.last() {
            Operation::Write(entry) => if entry.key == key {
                record_of(entry)
            } else {
                earlier
            },
            _ => earlier,
        }
    }
}

/// Whether all compactions of a history found intact files.
pub open spec fn compacts_intact_files(
    states: Seq<(EngineView, Map<Seq<char>, Seq<u8>>)>,
    operations: Seq<Operation>,
) -> bool {
    forall|i: int|
        0 <= i < operations.len() && #[trigger] operations[i] is Compact ==> readable(
            states[i].0,
            states[i].1,
        )
}

/// After any run of writes, flushes, compactions of intact files and openings that all
/// end well, a lookup gives what the last write to the key wrote: the value of a put,
/// and none after a delete.
pub proof fn law_lookup_gives_the_last_write(
    states: Seq<(EngineView, Map<Seq<char>, Seq<u8>>)>,
    operations: Seq<Operation>,
    key: Seq<u8>,
    before: Option<Seq<u8>>,
)
    requires
        is_history(states, operations),
        settled(states[0]),
        compacts_intact_files(states, operations),
        lookup(states[0].0, states[0].1, key) == Ok::<Option<Seq<u8>>, ErrorView>(before),
    ensures
        lookup(states.last().0, states.last().1, key) == Ok::<Option<Seq<u8>>, ErrorView>(
            last_written(operations, key, before),
        ),
    decreases operations.len(),
{
    if operations.len() > 0 {
        let n = operations.len() - 1;
        let front = states.drop_last();
        let earlier = operations.drop_last();
        lemma_earlier_history(states, operations);
        assert forall|i: int|
            0 <= i < earlier.len() && #[trigger] earlier[i] is Compact implies readable(
            front[i].0,
            front[i].1,
        ) by {
            assert(operations[i] is Compact);
        }
        law_lookup_gives_the_last_write(front, earlier, key, before);
        law_history_keeps_files(front, earlier);
        assert(operations[n] == operations.last());
        law_operation_keeps_lookups(front.last(), operations.last(), states.last());
    }
}

/// A key without a value stays without one through any run of writes, flushes,
/// compactions of intact files and openings that all end well, until it is put.
pub proof fn law_deleted_key_stays_deleted(
    states: Seq<(EngineView, Map<Seq<char>, Seq<u8>>)>,
    operations: Seq<Operation>,
    key: Seq<u8>,
)
    requires
        is_history(states, operations),
        settled(states[0]),
        compacts_intact_files(states, operations),
        lookup(states[0].0, states[0].1, key) == Ok::<Option<Seq<u8>>, ErrorView>(None),
        forall|i: int|
            0 <= i < operations.len() ==> ((#[trigger] operations[i]) matches Operation::Write(
                entry,
            ) ==> entry.key != key || entry.op == WalOp::Delete),
    ensures
        lookup(states.last().0, states.last().1, key) == Ok::<Option<Seq<u8>>, ErrorView>(None),
{
    law_lookup_gives_the_last_write(states, operations, key, None);
    lemma_nothing_written(operations, key);
}

/// Where no put wrote to a key, the last write wrote no value.
proof fn lemma_nothing_written(operations: Seq<Operation>, key: Seq<u8>)
    requires
        forall|i: int|
            0 <= i < operations.len() ==> ((#[trigger] operations[i]) matches Operation::Write(
                entry,
            ) ==> entry.key != key || entry.op == WalOp::Delete),
    ensures
        last_written(operations, key, None) is None,
    decreases operations.len(),
{
    if operations.len() > 0 {
        let earlier = operations.drop_last();
        assert(operations.last() == operations[operations.len() - 1]);
        assert forall|i: int| 0 <= i < earlier.len() implies ((
        #[trigger] earlier[i]) matches Operation::Write(entry) ==> entry.key != key || entry.op
            == WalOp::Delete) by {
            assert(earlier[i] == operations[i]);
        }
        lemma_nothing_written(earlier, key);
    }
}

} // verus!
