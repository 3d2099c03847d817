//! What merging rows does to the maps that they stand for.
use vstd::prelude::*;

use crate::bytes::{lemma_lex_transitive, lex_lt};
use crate::storage::record_map::{is_place, lemma_placed, placed};
use crate::storage::rows::{
    apply, lemma_listing, lemma_sorted_part, listing, live, map_with_prefix, records_of, sorted,
    with_prefix,
};
use crate::storage::steps::merge;

verus! {

/// Every key has a place among sorted rows.
proof fn lemma_has_place(rows: Seq<(Seq<u8>, Option<Seq<u8>>)>, key: Seq<u8>) -> (at: int)
    requires
        sorted(rows),
    ensures
        is_place(rows, key, at),
    decreases rows.len(),
{
    if rows.len() == 0 {
        0
    } else {
        let n = rows.len() - 1;
        let front = rows.drop_last();
        assert(front =~= rows.subrange(0, n));
        lemma_sorted_part(rows, 0, n);
        let at = lemma_has_place(front, key);
        assert(forall|i: int| 0 <= i < n ==> #[trigger] front[i] == rows[i]);
        if lex_lt(rows[n].0, key) {
            assert forall|i: int| 0 <= i < n implies lex_lt(#[trigger] rows[i].0, key) by {
                lemma_lex_transitive(rows[i].0, rows[n].0, key);
            }
            n + 1
        } else {
            assert forall|i: int| 0 <= i < at implies lex_lt(#[trigger] rows[i].0, key) by {
                assert(lex_lt(front[i].0, key));
            }
            assert forall|i: int| at <= i < rows.len() implies !lex_lt(
                #[trigger] rows[i].0,
                key,
            ) by {
                if i < n {
                    assert(!lex_lt(front[i].0, key));
                }
            }
            at
        }
    }
}

/// The listing of a map with one more record is in order and stands for that map.
pub proof fn lemma_insert_listing(
    rows: Seq<(Seq<u8>, Option<Seq<u8>>)>,
    key: Seq<u8>,
    record: Option<Seq<u8>>,
)
    requires
        sorted(rows),
    ensures
        sorted(listing(records_of(rows).insert(key, record))),
        records_of(listing(records_of(rows).insert(key, record))) == records_of(rows).insert(
            key,
            record,
        ),
{
    let at = lemma_has_place(rows, key);
    lemma_placed(rows, at, (key, record));
    lemma_listing(placed(rows, at, (key, record)));
}

/// Merging adds no more rows than there are to merge.
pub proof fn lemma_merge_len(
    rows: Seq<(Seq<u8>, Option<Seq<u8>>)>,
    more: Seq<(Seq<u8>, Option<Seq<u8>>)>,
)
    requires
        sorted(rows),
    ensures
        merge(rows, more).len() <= rows.len() + more.len(),
    decreases more.len(),
{
    if more.len() == 0 {
        lemma_listing(rows);
    } else {
        let before = merge(rows, more.drop_last());
        let last = more.last();
        lemma_merge_len(rows, more.drop_last());
        lemma_merge(rows, more.drop_last());
        let at = lemma_has_place(before, last.0);
        lemma_placed(before, at, last);
        lemma_listing(placed(before, at, last));
    }
}

/// Merged rows are in order and stand for the map after all writes.
pub proof fn lemma_merge(
    rows: Seq<(Seq<u8>, Option<Seq<u8>>)>,
    more: Seq<(Seq<u8>, Option<Seq<u8>>)>,
)
    requires
        sorted(rows),
    ensures
        sorted(merge(rows, more)),
        records_of(merge(rows, more)) == apply(records_of(rows), more),
    decreases more.len(),
{
    if more.len() == 0 {
        lemma_listing(rows);
    } else {
        lemma_merge(rows, more.drop_last());
        lemma_insert_listing(merge(rows, more.drop_last()), more.last().0, more.last().1);
    }
}

/// Writing rows and looking at the keys with a prefix is writing the rows with
/// that prefix.
pub proof fn lemma_apply_with_prefix(
    m: Map<Seq<u8>, Option<Seq<u8>>>,
    rows: Seq<(Seq<u8>, Option<Seq<u8>>)>,
    prefix: Seq<u8>,
)
    ensures
        map_with_prefix(apply(m, rows), prefix) == apply(
            map_with_prefix(m, prefix),
            with_prefix(rows, prefix),
        ),
    decreases rows.len(),
{
    reveal(Seq::filter);
    if rows.len() > 0 {
        let front = rows.drop_last();
        let kept = with_prefix(front, prefix);
        lemma_apply_with_prefix(m, front, prefix);
        if prefix.is_prefix_of(rows.last().0) {
            assert(with_prefix(rows, prefix) == kept.push(rows.last()));
            assert(kept.push(rows.last()).drop_last() =~= kept);
        } else {
            assert(with_prefix(rows, prefix) == kept);
        }
        assert(map_with_prefix(apply(m, rows), prefix) =~= apply(
            map_with_prefix(m, prefix),
            with_prefix(rows, prefix),
        ));
    }
}

/// The live part of the keys with a prefix is the part of the live keys with it.
pub proof fn lemma_live_with_prefix(m: Map<Seq<u8>, Option<Seq<u8>>>, prefix: Seq<u8>)
    ensures
        live(map_with_prefix(m, prefix)) == map_with_prefix(live(m), prefix),
{
    assert(live(map_with_prefix(m, prefix)) =~= map_with_prefix(live(m), prefix));
}

} // verus!
