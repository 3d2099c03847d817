//! Tables in the order of their numbers.
use vstd::prelude::*;

use crate::storage::sstable::{SstableReader, TableView};

verus! {

/// Tables as contracts speak of them.
pub open spec fn tables_of(sstables: Seq<SstableReader>) -> Seq<TableView> {
    Seq::new(sstables.len(), |i: int| sstables[i]@)
}

/// Whether a table has a number.
pub open spec fn has_id(id: u64) -> spec_fn(TableView) -> bool {
    |table: TableView| table.id == id
}

/// Whether `tables` are the tables `found`, in the order of their numbers; those
/// with the same number keep their order.
pub open spec fn stable_by_id(found: Seq<TableView>, tables: Seq<TableView>) -> bool {
    &&& forall|i: int, j: int|
        0 <= i < j < tables.len() ==> (#[trigger] tables[i]).id <= (#[trigger] tables[j]).id
    &&& forall|id: u64| #[trigger] tables.filter(has_id(id)) == found.filter(has_id(id))
}

/// Filtering around one item.
proof fn lemma_filter_insert<T>(s: Seq<T>, at: int, item: T, keep: spec_fn(T) -> bool)
    requires
        0 <= at <= s.len(),
    ensures
        s.insert(at, item).filter(keep) == s.take(at).filter(keep) + (if keep(item) {
            seq![item]
        } else {
            Seq::empty()
        }) + s.skip(at).filter(keep),
        s.filter(keep) == s.take(at).filter(keep) + s.skip(at).filter(keep),
{
    let one = seq![item];
    assert(s.insert(at, item) =~= s.take(at) + one + s.skip(at));
    assert(s =~= s.take(at) + s.skip(at));
    Seq::filter_distributes_over_add(s.take(at), s.skip(at), keep);
    Seq::filter_distributes_over_add(s.take(at) + one, s.skip(at), keep);
    Seq::filter_distributes_over_add(s.take(at), one, keep);
    reveal(Seq::filter);
    lemma_filter_none(one.drop_last(), keep);
    assert(one.last() == item);
    assert(one.filter(keep) =~= if keep(item) {
        one
    } else {
        Seq::empty()
    });
}

/// Nothing is kept of items that none should be kept of.
proof fn lemma_filter_none<T>(s: Seq<T>, keep: spec_fn(T) -> bool)
    requires
        forall|i: int| 0 <= i < s.len() ==> !keep(#[trigger] s[i]),
    ensures
        s.filter(keep) == Seq::<T>::empty(),
    decreases s.len(),
{
    reveal(Seq::filter);
    if s.len() > 0 {
        assert(s.last() == s[s.len() - 1]);
        assert forall|i: int| 0 <= i < s.drop_last().len() implies !keep(
            #[trigger] s.drop_last()[i],
        ) by {
            assert(s.drop_last()[i] == s[i]);
        }
        lemma_filter_none(s.drop_last(), keep);
    }
}

/// What is kept of items is one of them.
proof fn lemma_filter_from<T>(s: Seq<T>, keep: spec_fn(T) -> bool, item: T)
    requires
        s.filter(keep).contains(item),
    ensures
        s.contains(item),
    decreases s.len(),
{
    reveal(Seq::filter);
    if s.len() > 0 {
        let kept = s.filter(keep);
        let front = s.drop_last().filter(keep);
        let i = choose|i: int| 0 <= i < kept.len() && kept[i] == item;
        if i < front.len() {
            assert(front[i] == item);
            lemma_filter_from(s.drop_last(), keep, item);
            let j = choose|j: int| 0 <= j < s.drop_last().len() && s.drop_last()[j] == item;
            assert(s[j] == item);
        } else {
            assert(item == s[s.len() - 1]);
        }
    }
}

/// An item that is to be kept is kept.
proof fn lemma_filter_keeps<T>(s: Seq<T>, keep: spec_fn(T) -> bool, i: int)
    requires
        0 <= i < s.len(),
        keep(s[i]),
    ensures
        s.filter(keep).contains(s[i]),
    decreases s.len(),
{
    reveal(Seq::filter);
    let kept = s.filter(keep);
    let front = s.drop_last().filter(keep);
    if i < s.len() - 1 {
        lemma_filter_keeps(s.drop_last(), keep, i);
        let j = choose|j: int| 0 <= j < front.len() && front[j] == s[i];
        assert(kept[j] == s[i]);
    } else {
        assert(kept[kept.len() - 1] == s[i]);
    }
}

/// Each sorted table is one of those that were found.
pub proof fn lemma_stable_ids(found: Seq<TableView>, tables: Seq<TableView>)
    requires
        stable_by_id(found, tables),
    ensures
        forall|i: int| 0 <= i < tables.len() ==> found.contains(#[trigger] tables[i]),
{
    assert forall|i: int| 0 <= i < tables.len() implies found.contains(#[trigger] tables[i]) by {
        let keep = has_id(tables[i].id);
        lemma_filter_keeps(tables, keep, i);
        assert(tables.filter(keep) == found.filter(keep));
        lemma_filter_from(found, keep, tables[i]);
    }
}

/// Brings tables in the order of their numbers.
pub fn sort_by_id(readers: Vec<SstableReader>) -> (out: Vec<SstableReader>)
    requires
        forall|i: int| 0 <= i < readers.len() ==> (#[trigger] readers@[i]).wf(),
    ensures
        forall|i: int| 0 <= i < out.len() ==> (#[trigger] out@[i]).wf(),
        stable_by_id(tables_of(readers@), tables_of(out@)),
{
    let ghost given = readers@;
    let ghost all = tables_of(given);
    let mut out: Vec<SstableReader> = Vec::new();
    assert(tables_of(out@) =~= all.take(0));
    for reader in it: readers
        invariant
            it.seq() == given,
            all == tables_of(given),
            forall|i: int| 0 <= i < given.len() ==> (#[trigger] given[i]).wf(),
            forall|i: int| 0 <= i < out.len() ==> (#[trigger] out@[i]).wf(),
            stable_by_id(all.take(it.index() as int), tables_of(out@)),
    {
        let ghost n = it.index() as int;
        let ghost before = tables_of(out@);
        let ghost table = reader@;
        assert(given[n] == reader);
        let id: u64 = reader.metadata().id.0;
        let mut at: usize = out.len();
        while at > 0 && out[at - 1].metadata().id.0 > id
            invariant
                at <= out.len(),
                before == tables_of(out@),
                forall|i: int| 0 <= i < out.len() ==> (#[trigger] out@[i]).wf(),
                forall|i: int| at <= i < before.len() ==> (#[trigger] before[i]).id > id,
            decreases at,
        {
            at -= 1;
            assert(before[at as int] == out@[at as int]@);
        }
        assert(at > 0 ==> before[at - 1] == out@[at - 1]@);
        out.insert(at, reader);
        let ghost after = tables_of(out@);
        assert(after =~= before.insert(at as int, table));
        proof {
            lemma_sorted_insert(all.take(n), before, at as int, table);
            assert(all.take(n).push(table) =~= all.take(n + 1));
        }
    }
    assert(all.take(all.len() as int) =~= all);
    out
}

/// A table put behind those with no higher a number keeps the order.
proof fn lemma_sorted_insert(
    found: Seq<TableView>,
    tables: Seq<TableView>,
    at: int,
    table: TableView,
)
    requires
        stable_by_id(found, tables),
        0 <= at <= tables.len(),
        at > 0 ==> tables[at - 1].id <= table.id,
        forall|i: int| at <= i < tables.len() ==> (#[trigger] tables[i]).id > table.id,
    ensures
        stable_by_id(found.push(table), tables.insert(at, table)),
{
    let after = tables.insert(at, table);
    assert forall|i: int, j: int| 0 <= i < j < after.len() implies (#[trigger] after[i]).id <= (
    #[trigger] after[j]).id by {
        if i < at && at > 0 {
            assert(tables[i].id <= tables[at - 1].id || i == at - 1);
        }
    }
    assert forall|id: u64| #[trigger] after.filter(has_id(id)) == found.push(table).filter(
        has_id(id),
    ) by {
        let keep = has_id(id);
        lemma_filter_insert(tables, at, table, keep);
        lemma_filter_insert(found, found.len() as int, table, keep);
        assert(found.insert(found.len() as int, table) =~= found.push(table));
        assert(found.take(found.len() as int) =~= found);
        lemma_filter_none(found.skip(found.len() as int), keep);
        assert(tables.filter(keep) == found.filter(keep));
        if keep(table) {
            let rest = tables.skip(at);
            assert forall|i: int| 0 <= i < rest.len() implies !keep(#[trigger] rest[i]) by {
                assert(rest[i] == tables[at + i]);
            }
            lemma_filter_none(rest, keep);
        }
        assert(after.filter(keep) =~= found.push(table).filter(keep));
    }
}

/// Sorting tables loses none and adds none, and brings them in the order of their
/// numbers; those with the same number stand in the order in which they were found.
pub proof fn law_sorted_tables(found: Seq<TableView>, tables: Seq<TableView>, id: u64)
    requires
        stable_by_id(found, tables),
    ensures
        tables.to_multiset() == found.to_multiset(),
        forall|i: int, j: int|
            0 <= i < j < tables.len() ==> (#[trigger] tables[i]).id <= (#[trigger] tables[j]).id,
        tables.filter(|table: TableView| table.id == id) == found.filter(
            |table: TableView| table.id == id,
        ),
{
    assert((|table: TableView| table.id == id) =~= has_id(id));
    assert(tables.filter(has_id(id)) == found.filter(has_id(id)));
    assert forall|table: TableView| tables.to_multiset().count(table) == #[trigger]
        found.to_multiset().count(table) by {
        let keep = has_id(table.id);
        lemma_count_kept(tables, keep, table);
        lemma_count_kept(found, keep, table);
        assert(tables.filter(keep) == found.filter(keep));
    }
    assert(tables.to_multiset() =~= found.to_multiset());
}

/// An item that is to be kept is kept as often as it is there.
proof fn lemma_count_kept<T>(s: Seq<T>, keep: spec_fn(T) -> bool, item: T)
    requires
        keep(item),
    ensures
        s.filter(keep).to_multiset().count(item) == s.to_multiset().count(item),
    decreases s.len(),
{
    reveal(Seq::filter);
    broadcast use {vstd::seq_lib::group_to_multiset_ensures, vstd::multiset::group_multiset_axioms};
    if s.len() > 0 {
        let front = s.drop_last();
        lemma_count_kept(front, keep, item);
        assert(s =~= front.push(s.last()));
        vstd::seq_lib::to_multiset_build(front, s.last());
        vstd::seq_lib::to_multiset_build(front.filter(keep), s.last());
    }
}

/// Readers are spoken of as the tables that they read, in their order.
pub proof fn law_view_of_readers(sstables: Seq<SstableReader>)
    ensures
        tables_of(sstables).len() == sstables.len(),
        forall|i: int|
            0 <= i < sstables.len() ==> #[trigger] tables_of(sstables)[i] == sstables[i]@,
{
}

} // verus!
