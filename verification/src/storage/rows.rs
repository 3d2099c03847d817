//! Rows in key order, and the maps that they stand for.
use vstd::prelude::*;

use crate::bytes::{
    lemma_lex_irreflexive, lemma_lex_total, lemma_prefix_not_after, lemma_prefix_run_ends, lex_lt,
};

verus! {

/// Whether rows stand in strictly increasing key order.
pub open spec fn sorted<V>(rows: Seq<(Seq<u8>, V)>) -> bool {
    forall|i: int, j: int| 0 <= i < j < rows.len() ==> lex_lt(#[trigger] rows[i].0, #[trigger] rows[j].0)
}

/// Whether no row has the empty key.
pub open spec fn no_empty_key<V>(rows: Seq<(Seq<u8>, V)>) -> bool {
    forall|i: int| 0 <= i < rows.len() ==> (#[trigger] rows[i]).0.len() > 0
}

/// A map after rows were written to it, one after the other.
pub open spec fn apply<V>(m: Map<Seq<u8>, V>, rows: Seq<(Seq<u8>, V)>) -> Map<Seq<u8>, V>
    decreases rows.len(),
{
    if rows.len() == 0 {
        m
    } else {
        apply(m, rows.drop_last()).insert(rows.last().0, rows.last().1)
    }
}

/// The map that rows stand for.
pub open spec fn records_of<V>(rows: Seq<(Seq<u8>, V)>) -> Map<Seq<u8>, V> {
    apply(Map::empty(), rows)
}

/// Whether some row has the key.
pub open spec fn has_key<V>(rows: Seq<(Seq<u8>, V)>, key: Seq<u8>) -> bool {
    exists|i: int| 0 <= i < rows.len() && #[trigger] rows[i].0 == key
}

/// The rows of a map in key order.
pub open spec fn listing<V>(m: Map<Seq<u8>, V>) -> Seq<(Seq<u8>, V)> {
    choose|rows: Seq<(Seq<u8>, V)>| sorted(rows) && records_of(rows) == m
}

/// The rows whose keys start with a prefix.
pub open spec fn with_prefix<V>(rows: Seq<(Seq<u8>, V)>, prefix: Seq<u8>) -> Seq<(Seq<u8>, V)> {
    rows.filter(|row: (Seq<u8>, V)| prefix.is_prefix_of(row.0))
}

/// The part of a map whose keys start with a prefix.
pub open spec fn map_with_prefix<V>(m: Map<Seq<u8>, V>, prefix: Seq<u8>) -> Map<Seq<u8>, V> {
    m.restrict(Set::new(|key: Seq<u8>| prefix.is_prefix_of(key)))
}

/// The part of a map that was not deleted.
pub open spec fn live(m: Map<Seq<u8>, Option<Seq<u8>>>) -> Map<Seq<u8>, Seq<u8>> {
    Map::new(|key: Seq<u8>| m.contains_key(key) && m[key] is Some, |key: Seq<u8>| m[key]->0)
}

/// The rows that were not deleted.
pub open spec fn live_rows(rows: Seq<(Seq<u8>, Option<Seq<u8>>)>) -> Seq<(Seq<u8>, Seq<u8>)>
    decreases rows.len(),
{
    if rows.len() == 0 {
        Seq::empty()
    } else {
        let front = live_rows(rows.drop_last());
        match rows.last().1 {
            Some(value) => front.push((rows.last().0, value)),
            None => front,
        }
    }
}

/// At most the first `limit` items.
pub open spec fn at_most<T>(s: Seq<T>, limit: nat) -> Seq<T> {
    if s.len() <= limit {
        s
    } else {
        s.take(limit as int)
    }
}

/// Keys that no row has keep what the map had.
pub proof fn lemma_apply_other<V>(m: Map<Seq<u8>, V>, rows: Seq<(Seq<u8>, V)>, key: Seq<u8>)
    requires
        !has_key(rows, key),
    ensures
        apply(m, rows).contains_key(key) == m.contains_key(key),
        apply(m, rows)[key] == m[key],
    decreases rows.len(),
{
    if rows.len() > 0 {
        assert(rows.last() == rows[rows.len() - 1]);
        assert(!has_key(rows.drop_last(), key)) by {
            if has_key(rows.drop_last(), key) {
                let i = choose|i: int|
                    0 <= i < rows.drop_last().len() && #[trigger] rows.drop_last()[i].0 == key;
                assert(rows[i].0 == key);
            }
        }
        lemma_apply_other(m, rows.drop_last(), key);
    }
}

/// A front part of sorted rows is sorted.
pub proof fn lemma_sorted_part<V>(rows: Seq<(Seq<u8>, V)>, from: int, to: int)
    requires
        sorted(rows),
        0 <= from <= to <= rows.len(),
    ensures
        sorted(rows.subrange(from, to)),
{
    let part = rows.subrange(from, to);
    assert forall|i: int, j: int| 0 <= i < j < part.len() implies lex_lt(
        #[trigger] part[i].0,
        #[trigger] part[j].0,
    ) by {
        assert(part[i] == rows[from + i]);
        assert(part[j] == rows[from + j]);
    }
}

/// A key of sorted rows gets the value of its row.
pub proof fn lemma_apply_sorted<V>(m: Map<Seq<u8>, V>, rows: Seq<(Seq<u8>, V)>, i: int)
    requires
        sorted(rows),
        0 <= i < rows.len(),
    ensures
        apply(m, rows).contains_key(rows[i].0),
        apply(m, rows)[rows[i].0] == rows[i].1,
    decreases rows.len(),
{
    if i < rows.len() - 1 {
        assert(rows.drop_last() =~= rows.subrange(0, rows.len() - 1));
        lemma_sorted_part(rows, 0, rows.len() - 1);
        lemma_apply_sorted(m, rows.drop_last(), i);
        assert(rows.drop_last()[i] == rows[i]);
        lemma_lex_irreflexive(rows[i].0);
        assert(lex_lt(rows[i].0, rows[rows.len() - 1].0));
    }
}

/// What the map of sorted rows holds.
pub proof fn lemma_records_of_sorted<V>(rows: Seq<(Seq<u8>, V)>)
    requires
        sorted(rows),
    ensures
        forall|key: Seq<u8>| #[trigger]
            records_of(rows).contains_key(key) <==> has_key(rows, key),
        forall|i: int|
            0 <= i < rows.len() ==> records_of(rows)[(#[trigger] rows[i]).0] == rows[i].1,
{
    assert forall|key: Seq<u8>| #[trigger]
        records_of(rows).contains_key(key) <==> has_key(rows, key) by {
        if has_key(rows, key) {
            let i = choose|i: int| 0 <= i < rows.len() && #[trigger] rows[i].0 == key;
            lemma_apply_sorted(Map::empty(), rows, i);
        } else {
            lemma_apply_other(Map::<Seq<u8>, V>::empty(), rows, key);
        }
    }
    assert forall|i: int| 0 <= i < rows.len() implies records_of(rows)[(#[trigger] rows[i]).0]
        == rows[i].1 by {
        lemma_apply_sorted(Map::empty(), rows, i);
    }
}

/// Sorted rows have no empty key exactly if the map that they stand for has none.
pub proof fn lemma_no_empty_key<V>(rows: Seq<(Seq<u8>, V)>)
    requires
        sorted(rows),
    ensures
        no_empty_key(rows) <==> !records_of(rows).contains_key(Seq::empty()),
{
    lemma_records_of_sorted(rows);
    let none = Seq::<u8>::empty();
    if has_key(rows, none) {
        let i = choose|i: int| 0 <= i < rows.len() && #[trigger] rows[i].0 == none;
        assert(rows[i].0.len() == 0);
    }
    if !no_empty_key(rows) {
        let i = choose|i: int| 0 <= i < rows.len() && (#[trigger] rows[i]).0.len() == 0;
        assert(rows[i].0 =~= none);
        assert(has_key(rows, none));
    }
}

/// Writing sorted rows is overlaying the map that they stand for.
pub proof fn lemma_apply_is_overlay<V>(m: Map<Seq<u8>, V>, rows: Seq<(Seq<u8>, V)>)
    requires
        sorted(rows),
    ensures
        apply(m, rows) == m.union_prefer_right(records_of(rows)),
{
    lemma_records_of_sorted(rows);
    assert(apply(m, rows) =~= m.union_prefer_right(records_of(rows))) by {
        assert forall|key: Seq<u8>| #[trigger]
            apply(m, rows).contains_key(key) == m.union_prefer_right(records_of(rows)).contains_key(
                key,
            ) && (apply(m, rows).contains_key(key) ==> apply(m, rows)[key]
            == m.union_prefer_right(records_of(rows))[key]) by {
            if has_key(rows, key) {
                let i = choose|i: int| 0 <= i < rows.len() && #[trigger] rows[i].0 == key;
                lemma_apply_sorted(m, rows, i);
                assert(records_of(rows).contains_key(key));
            } else {
                lemma_apply_other(m, rows, key);
                assert(!records_of(rows).contains_key(key));
            }
        }
    }
}

/// Two sorted runs of rows that stand for the same map are the same rows.
pub proof fn lemma_sorted_rows_unique<V>(a: Seq<(Seq<u8>, V)>, b: Seq<(Seq<u8>, V)>)
    requires
        sorted(a),
        sorted(b),
        records_of(a) == records_of(b),
    ensures
        a == b,
    decreases a.len(),
{
    lemma_records_of_sorted(a);
    lemma_records_of_sorted(b);
    if a.len() == 0 || b.len() == 0 {
        if a.len() > 0 {
            assert(has_key(a, a[0].0));
            assert(records_of(b).contains_key(a[0].0));
            assert(false);
        }
        if b.len() > 0 {
            assert(has_key(b, b[0].0));
            assert(records_of(a).contains_key(b[0].0));
            assert(false);
        }
        assert(a =~= b);
    } else {
        let la = a[a.len() - 1];
        let lb = b[b.len() - 1];
        assert(has_key(a, la.0));
        assert(has_key(b, lb.0));
        assert(records_of(a).contains_key(la.0));
        assert(records_of(b).contains_key(lb.0));
        assert(has_key(b, la.0));
        assert(has_key(a, lb.0));
        let i = choose|i: int| 0 <= i < b.len() && #[trigger] b[i].0 == la.0;
        let j = choose|j: int| 0 <= j < a.len() && #[trigger] a[j].0 == lb.0;
        lemma_lex_total(la.0, lb.0);
        assert(la.0 == lb.0) by {
            if i < b.len() - 1 && j < a.len() - 1 {
                assert(lex_lt(b[i].0, lb.0));
                assert(lex_lt(a[j].0, la.0));
            }
        }
        assert(la.1 == lb.1);
        assert(a.drop_last() =~= a.subrange(0, a.len() - 1));
        assert(b.drop_last() =~= b.subrange(0, b.len() - 1));
        lemma_sorted_part(a, 0, a.len() - 1);
        lemma_sorted_part(b, 0, b.len() - 1);
        lemma_last_key_is_new(a);
        lemma_last_key_is_new(b);
        assert(records_of(a.drop_last()) =~= records_of(a).remove(la.0));
        assert(records_of(b.drop_last()) =~= records_of(b).remove(lb.0));
        lemma_sorted_rows_unique(a.drop_last(), b.drop_last());
        assert(a =~= a.drop_last().push(la));
        assert(b =~= b.drop_last().push(lb));
    }
}

/// The last key of sorted rows is in no row before.
pub proof fn lemma_last_key_is_new<V>(rows: Seq<(Seq<u8>, V)>)
    requires
        sorted(rows),
        rows.len() > 0,
    ensures
        !has_key(rows.drop_last(), rows.last().0),
        !records_of(rows.drop_last()).contains_key(rows.last().0),
{
    let front = rows.drop_last();
    let key = rows.last().0;
    if has_key(front, key) {
        let i = choose|i: int| 0 <= i < front.len() && #[trigger] front[i].0 == key;
        assert(front[i] == rows[i]);
        assert(lex_lt(rows[i].0, rows[rows.len() - 1].0));
        lemma_lex_irreflexive(key);
    }
    lemma_apply_other(Map::<Seq<u8>, V>::empty(), front, key);
}

/// Sorted rows are as many as the keys of the map that they stand for.
pub proof fn lemma_row_count<V>(rows: Seq<(Seq<u8>, V)>)
    requires
        sorted(rows),
    ensures
        records_of(rows).dom().finite(),
        records_of(rows).dom().len() == rows.len(),
    decreases rows.len(),
{
    if rows.len() == 0 {
        assert(records_of(rows).dom() =~= Set::empty());
    } else {
        let front = rows.drop_last();
        assert(front =~= rows.subrange(0, rows.len() - 1));
        lemma_sorted_part(rows, 0, rows.len() - 1);
        lemma_row_count(front);
        lemma_last_key_is_new(rows);
        assert(records_of(rows).dom() =~= records_of(front).dom().insert(rows.last().0));
    }
}

/// Sorted rows are the listing of the map that they stand for.
pub proof fn lemma_listing<V>(rows: Seq<(Seq<u8>, V)>)
    requires
        sorted(rows),
    ensures
        listing(records_of(rows)) == rows,
{
    lemma_sorted_rows_unique(rows, listing(records_of(rows)));
}

/// Where a condition holds of one unbroken run of items, filtering by it gives
/// the run.
pub proof fn lemma_filter_run<T>(s: Seq<T>, keep: spec_fn(T) -> bool, from: int, to: int)
    requires
        0 <= from <= to <= s.len(),
        forall|i: int| 0 <= i < s.len() ==> (keep(#[trigger] s[i]) <==> from <= i < to),
    ensures
        s.filter(keep) == s.subrange(from, to),
    decreases s.len(),
{
    reveal(Seq::filter);
    if s.len() == 0 {
        assert(s.filter(keep) =~= s.subrange(from, to));
    } else {
        let front = s.drop_last();
        assert forall|i: int| 0 <= i < front.len() implies (keep(#[trigger] front[i]) <==> from <= i
            < to) by {
            assert(front[i] == s[i]);
        }
        assert(s[s.len() - 1] == s.last());
        if to == s.len() && from < to {
            lemma_filter_run(front, keep, from, to - 1);
            assert(front.subrange(from, to - 1).push(s.last()) =~= s.subrange(from, to));
        } else if to == s.len() {
            lemma_filter_run(front, keep, from - 1, from - 1);
            assert(front.subrange(from - 1, from - 1) =~= s.subrange(from, to));
        } else {
            lemma_filter_run(front, keep, from, to);
            assert(front.subrange(from, to) =~= s.subrange(from, to));
        }
    }
}

/// Filtering gives no more items than there were.
pub proof fn lemma_filter_len<T>(s: Seq<T>, keep: spec_fn(T) -> bool)
    ensures
        s.filter(keep).len() <= s.len(),
    decreases s.len(),
{
    reveal(Seq::filter);
    if s.len() > 0 {
        lemma_filter_len(s.drop_last(), keep);
    }
}

/// In sorted rows the keys with a prefix form one run, which begins where the
/// keys no longer come before the prefix.
pub proof fn lemma_prefix_run<V>(rows: Seq<(Seq<u8>, V)>, prefix: Seq<u8>, from: int, to: int)
    requires
        sorted(rows),
        0 <= from <= to <= rows.len(),
        forall|i: int| 0 <= i < from ==> lex_lt(#[trigger] rows[i].0, prefix),
        forall|i: int| from <= i < rows.len() ==> !lex_lt(#[trigger] rows[i].0, prefix),
        forall|i: int| from <= i < to ==> prefix.is_prefix_of(#[trigger] rows[i].0),
        to < rows.len() ==> !prefix.is_prefix_of(rows[to].0),
    ensures
        with_prefix(rows, prefix) == rows.subrange(from, to),
{
    let keep = |row: (Seq<u8>, V)| prefix.is_prefix_of(row.0);
    assert forall|i: int| 0 <= i < rows.len() implies (keep(#[trigger] rows[i]) <==> from <= i
        < to) by {
        if i < from {
            if prefix.is_prefix_of(rows[i].0) {
                lemma_prefix_not_after(prefix, rows[i].0);
            }
        } else if i > to {
            assert(lex_lt(rows[to].0, rows[i].0));
            lemma_prefix_run_ends(prefix, rows[to].0, rows[i].0);
        }
    }
    lemma_filter_run(rows, keep, from, to);
}

/// Filtering sorted rows by a prefix gives the listing of the part of their map
/// with that prefix.
pub proof fn lemma_with_prefix_listing<V>(rows: Seq<(Seq<u8>, V)>, prefix: Seq<u8>)
    requires
        sorted(rows),
    ensures
        sorted(with_prefix(rows, prefix)),
        records_of(with_prefix(rows, prefix)) == map_with_prefix(records_of(rows), prefix),
        forall|i: int|
            0 <= i < with_prefix(rows, prefix).len() ==> has_key(
                rows,
                (#[trigger] with_prefix(rows, prefix)[i]).0,
            ),
    decreases rows.len(),
{
    reveal(Seq::filter);
    let kept = with_prefix(rows, prefix);
    if rows.len() == 0 {
        assert(records_of(kept) =~= map_with_prefix(records_of(rows), prefix));
    } else {
        let front = rows.drop_last();
        let last = rows.last();
        assert(front =~= rows.subrange(0, rows.len() - 1));
        lemma_sorted_part(rows, 0, rows.len() - 1);
        lemma_with_prefix_listing(front, prefix);
        let front_kept = with_prefix(front, prefix);
        assert forall|i: int| 0 <= i < front_kept.len() implies lex_lt(
            (#[trigger] front_kept[i]).0,
            last.0,
        ) && has_key(rows, front_kept[i].0) by {
            assert(has_key(front, front_kept[i].0));
            let j = choose|j: int| 0 <= j < front.len() && #[trigger] front[j].0 == front_kept[i].0;
            assert(rows[j].0 == front_kept[i].0);
            assert(lex_lt(rows[j].0, rows[rows.len() - 1].0));
        }
        lemma_last_key_is_new(rows);
        if prefix.is_prefix_of(last.0) {
            assert(kept == front_kept.push(last));
            assert(kept.drop_last() =~= front_kept);
            assert(rows[rows.len() - 1].0 == last.0);
            assert(records_of(kept) =~= map_with_prefix(records_of(rows), prefix));
        } else {
            assert(kept == front_kept);
            assert(records_of(kept) =~= map_with_prefix(records_of(rows), prefix));
        }
    }
}

/// The rows of sorted rows that were not deleted are the listing of the live
/// part of their map.
pub proof fn lemma_live_rows_listing(rows: Seq<(Seq<u8>, Option<Seq<u8>>)>)
    requires
        sorted(rows),
    ensures
        sorted(live_rows(rows)),
        records_of(live_rows(rows)) == live(records_of(rows)),
        live_rows(rows).len() <= rows.len(),
        forall|i: int|
            0 <= i < live_rows(rows).len() ==> has_key(rows, (#[trigger] live_rows(rows)[i]).0),
    decreases rows.len(),
{
    let kept = live_rows(rows);
    if rows.len() == 0 {
        assert(records_of(kept) =~= live(records_of(rows)));
    } else {
        let front = rows.drop_last();
        let last = rows.last();
        assert(front =~= rows.subrange(0, rows.len() - 1));
        lemma_sorted_part(rows, 0, rows.len() - 1);
        lemma_live_rows_listing(front);
        let front_kept = live_rows(front);
        assert forall|i: int| 0 <= i < front_kept.len() implies lex_lt(
            (#[trigger] front_kept[i]).0,
            last.0,
        ) && has_key(rows, front_kept[i].0) by {
            assert(has_key(front, front_kept[i].0));
            let j = choose|j: int| 0 <= j < front.len() && #[trigger] front[j].0 == front_kept[i].0;
            assert(rows[j].0 == front_kept[i].0);
            assert(lex_lt(rows[j].0, rows[rows.len() - 1].0));
        }
        lemma_last_key_is_new(rows);
        assert(rows[rows.len() - 1].0 == last.0);
        match last.1 {
            Some(value) => {
                assert(kept == front_kept.push((last.0, value)));
                assert(kept.drop_last() =~= front_kept);
                assert(records_of(kept) =~= live(records_of(rows)));
            },
            None => {
                assert(kept == front_kept);
                assert(records_of(kept) =~= live(records_of(rows)));
            },
        }
    }
}

/// Live rows as records of values.
pub open spec fn as_records(rows: Seq<(Seq<u8>, Seq<u8>)>) -> Seq<(Seq<u8>, Option<Seq<u8>>)> {
    rows.map_values(|row: (Seq<u8>, Seq<u8>)| (row.0, Some(row.1)))
}

/// Live rows, written as records, stand for the same live map.
pub proof fn lemma_as_records(rows: Seq<(Seq<u8>, Seq<u8>)>)
    requires
        sorted(rows),
    ensures
        sorted(as_records(rows)),
        live(records_of(as_records(rows))) == records_of(rows),
        forall|key: Seq<u8>| #[trigger]
            records_of(as_records(rows)).contains_key(key) ==> records_of(
                as_records(rows),
            )[key] is Some,
    decreases rows.len(),
{
    let records = as_records(rows);
    assert forall|i: int, j: int| 0 <= i < j < records.len() implies lex_lt(
        #[trigger] records[i].0,
        #[trigger] records[j].0,
    ) by {
        assert(records[i].0 == rows[i].0);
        assert(records[j].0 == rows[j].0);
    }
    if rows.len() == 0 {
        assert(live(records_of(records)) =~= records_of(rows));
    } else {
        assert(rows.drop_last() =~= rows.subrange(0, rows.len() - 1));
        lemma_sorted_part(rows, 0, rows.len() - 1);
        lemma_as_records(rows.drop_last());
        assert(records.drop_last() =~= as_records(rows.drop_last()));
        assert(live(records_of(records)) =~= records_of(rows));
    }
}

// What the parts of rows are.

/// The first items are a beginning of all, as many as the limit lets through.
pub proof fn law_at_most<T>(s: Seq<T>, limit: nat)
    ensures
        at_most(s, limit).len() == if s.len() <= limit {
            s.len()
        } else {
            limit
        },
        forall|i: int| 0 <= i < at_most(s, limit).len() ==> #[trigger] at_most(s, limit)[i] == s[i],
{
}

/// The rows with a prefix are, of rows in key order, those whose keys begin with it,
/// all of them and no others, in key order.
pub proof fn law_rows_with_a_prefix<V>(rows: Seq<(Seq<u8>, V)>, prefix: Seq<u8>)
    requires
        forall|i: int, j: int|
            0 <= i < j < rows.len() ==> lex_lt(#[trigger] rows[i].0, #[trigger] rows[j].0),
    ensures
        forall|i: int, j: int|
            0 <= i < j < with_prefix(rows, prefix).len() ==> lex_lt(
                (#[trigger] with_prefix(rows, prefix)[i]).0,
                (#[trigger] with_prefix(rows, prefix)[j]).0,
            ),
        forall|row: (Seq<u8>, V)| #[trigger]
            with_prefix(rows, prefix).contains(row) <==> rows.contains(row)
                && prefix.is_prefix_of(row.0),
{
    let kept = with_prefix(rows, prefix);
    let keep = |row: (Seq<u8>, V)| prefix.is_prefix_of(row.0);
    lemma_with_prefix_listing(rows, prefix);
    assert forall|row: (Seq<u8>, V)| #[trigger] kept.contains(row) <==> rows.contains(row)
        && prefix.is_prefix_of(row.0) by {
        if kept.contains(row) {
            let i = choose|i: int| 0 <= i < kept.len() && kept[i] == row;
            rows.lemma_filter_contains_rev(keep, row);
            rows.lemma_filter_pred(keep, i);
        }
        if rows.contains(row) && prefix.is_prefix_of(row.0) {
            let i = choose|i: int| 0 <= i < rows.len() && rows[i] == row;
            rows.lemma_filter_contains(keep, i);
        }
    }
}

/// A map after rows were written to it gives a key the record of the last row that has
/// it, and what it gave before to a key that no row has.
pub proof fn law_last_row_wins<V>(m: Map<Seq<u8>, V>, rows: Seq<(Seq<u8>, V)>, key: Seq<u8>)
    ensures
        forall|i: int|
            0 <= i < rows.len() && (#[trigger] rows[i]).0 == key && (forall|j: int|
                i < j < rows.len() ==> (#[trigger] rows[j]).0 != key) ==> apply(
                m,
                rows,
            ).contains_key(key) && apply(m, rows)[key] == rows[i].1,
        (forall|i: int| 0 <= i < rows.len() ==> (#[trigger] rows[i]).0 != key) ==> apply(
            m,
            rows,
        ).contains_key(key) == m.contains_key(key) && apply(m, rows)[key] == m[key],
    decreases rows.len(),
{
    if rows.len() > 0 {
        let front = rows.drop_last();
        let last = rows.len() - 1;
        law_last_row_wins(m, front, key);
        assert forall|i: int|
            0 <= i < rows.len() && (#[trigger] rows[i]).0 == key && (forall|j: int|
                i < j < rows.len() ==> (#[trigger] rows[j]).0 != key) implies apply(
            m,
            rows,
        ).contains_key(key) && apply(m, rows)[key] == rows[i].1 by {
            if i < last {
                assert(rows[last].0 != key);
                assert(front[i].0 == key);
                assert forall|j: int| i < j < front.len() implies (#[trigger] front[j]).0 != key by {
                    assert(rows[j].0 != key);
                }
            }
        }
        if forall|i: int| 0 <= i < rows.len() ==> (#[trigger] rows[i]).0 != key {
            assert(rows[last].0 != key);
            assert forall|i: int| 0 <= i < front.len() implies (#[trigger] front[i]).0 != key by {
                assert(rows[i].0 != key);
            }
        }
    }
}

/// The live part of a map has the keys with a value, and their values.
pub proof fn law_live_part(m: Map<Seq<u8>, Option<Seq<u8>>>, key: Seq<u8>)
    ensures
        live(m).contains_key(key) <==> m.contains_key(key) && m[key] is Some,
        live(m).contains_key(key) ==> Some(live(m)[key]) == m[key],
{
}

/// The live rows of rows in key order are those with a value, all of them and no
/// others, in key order.
pub proof fn law_live_rows(rows: Seq<(Seq<u8>, Option<Seq<u8>>)>)
    requires
        forall|i: int, j: int|
            0 <= i < j < rows.len() ==> lex_lt(#[trigger] rows[i].0, #[trigger] rows[j].0),
    ensures
        forall|i: int, j: int|
            0 <= i < j < live_rows(rows).len() ==> lex_lt(
                (#[trigger] live_rows(rows)[i]).0,
                (#[trigger] live_rows(rows)[j]).0,
            ),
        forall|key: Seq<u8>, value: Seq<u8>| #[trigger]
            live_rows(rows).contains((key, value)) <==> rows.contains((key, Some(value))),
    decreases rows.len(),
{
    lemma_live_rows_listing(rows);
    if rows.len() > 0 {
        let front = rows.drop_last();
        let last = rows.last();
        assert(front =~= rows.subrange(0, rows.len() - 1));
        lemma_sorted_part(rows, 0, rows.len() - 1);
        law_live_rows(front);
        let before = live_rows(front);
        let after = live_rows(rows);
        assert forall|key: Seq<u8>, value: Seq<u8>| #[trigger]
            after.contains((key, value)) <==> rows.contains((key, Some(value))) by {
            assert(before.contains((key, value)) <==> front.contains((key, Some(value))));
            if after.contains((key, value)) {
                let i = choose|i: int| 0 <= i < after.len() && after[i] == (key, value);
                if i < before.len() {
                    assert(before[i] == (key, value));
                    let j = choose|j: int| 0 <= j < front.len() && front[j] == (key, Some(value));
                    assert(rows[j] == (key, Some(value)));
                } else {
                    assert(rows[rows.len() - 1] == (key, Some(value)));
                }
            }
            if rows.contains((key, Some(value))) {
                let j = choose|j: int| 0 <= j < rows.len() && rows[j] == (key, Some(value));
                if j < front.len() {
                    assert(front[j] == (key, Some(value)));
                    let i = choose|i: int| 0 <= i < before.len() && before[i] == (key, value);
                    assert(after[i] == (key, value));
                } else {
                    assert(after[before.len() as int] == (key, value));
                }
            }
        }
    } else {
        assert forall|key: Seq<u8>, value: Seq<u8>| #[trigger]
            live_rows(rows).contains((key, value)) <==> rows.contains((key, Some(value))) by {
        }
    }
}

/// Live rows as records keep their keys and values, in their order.
pub proof fn law_live_rows_as_records(rows: Seq<(Seq<u8>, Seq<u8>)>)
    ensures
        as_records(rows).len() == rows.len(),
        forall|i: int|
            0 <= i < rows.len() ==> #[trigger] as_records(rows)[i] == (rows[i].0, Some(rows[i].1)),
{
}

/// The listing of what rows in key order stand for is those rows.
pub proof fn law_listing_gives_rows_back<V>(rows: Seq<(Seq<u8>, V)>)
    requires
        forall|i: int, j: int|
            0 <= i < j < rows.len() ==> lex_lt(#[trigger] rows[i].0, #[trigger] rows[j].0),
    ensures
        listing(records_of(rows)) == rows,
        forall|key: Seq<u8>| #[trigger]
            records_of(rows).contains_key(key) <==> exists|i: int|
                0 <= i < rows.len() && (#[trigger] rows[i]).0 == key,
        forall|i: int|
            0 <= i < rows.len() ==> records_of(rows)[(#[trigger] rows[i]).0] == rows[i].1,
{
    lemma_listing(rows);
    lemma_records_of_sorted(rows);
}

} // verus!
