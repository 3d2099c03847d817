//! A map from keys to records, kept in key order.
use vstd::prelude::*;

use crate::bytes::{
    compare, copy_bytes, lemma_lex_irreflexive, lemma_lex_total, lemma_lex_transitive, lex_lt,
    starts_with, Order,
};
use crate::storage::rows::{
    at_most, has_key, lemma_prefix_run, lemma_records_of_sorted, live_rows, records_of, sorted,
    with_prefix,
};

verus! {

/// What a key was last given: a value, or a mark that it was deleted.
#[derive(Debug, PartialEq, Eq)]
pub enum ValueRecord {
    Value(Vec<u8>),
    Tombstone,
}

impl View for ValueRecord {
    type V = Option<Seq<u8>>;

    open spec fn view(&self) -> Option<Seq<u8>> {
        match self {
            ValueRecord::Value(value) => Some(value@),
            ValueRecord::Tombstone => None,
        }
    }
}

impl Clone for ValueRecord {
    fn clone(&self) -> (copy: Self)
        ensures
            copy@ == self@,
    {
        match self {
            ValueRecord::Value(value) => ValueRecord::Value(copy_bytes(value.as_slice())),
            ValueRecord::Tombstone => ValueRecord::Tombstone,
        }
    }
}

impl ValueRecord {
    /// The value, unless the record is a tombstone.
    pub fn as_value(&self) -> (value: Option<&[u8]>)
        ensures
            self@ is None ==> value is None,
            self@ matches Some(bytes) ==> value is Some && value->0@ == bytes,
    {
        match self {
            ValueRecord::Value(value) => Some(value.as_slice()),
            ValueRecord::Tombstone => None,
        }
    }

    /// How many bytes the value takes.
    pub fn heap_bytes(&self) -> (size: usize)
        ensures
            size as nat == value_size(self@),
            self matches ValueRecord::Value(value) ==> size == value.len(),
            self matches ValueRecord::Tombstone ==> size == 0,
    {
        match self {
            ValueRecord::Value(value) => value.len(),
            ValueRecord::Tombstone => 0,
        }
    }
}

/// How many bytes the value of a record takes.
pub open spec fn value_size(record: Option<Seq<u8>>) -> nat {
    match record {
        Some(value) => value.len(),
        None => 0,
    }
}

/// Entries as rows.
pub open spec fn rows_of(entries: Seq<(Vec<u8>, ValueRecord)>) -> Seq<
    (Seq<u8>, Option<Seq<u8>>),
> {
    Seq::new(entries.len(), |i: int| (entries[i].0@, entries[i].1@))
}

/// Pairs of bytes as rows.
pub open spec fn pairs_of(pairs: Seq<(Vec<u8>, Vec<u8>)>) -> Seq<(Seq<u8>, Seq<u8>)> {
    Seq::new(pairs.len(), |i: int| (pairs[i].0@, pairs[i].1@))
}

/// Copies an entry.
fn copy_entry(entry: &(Vec<u8>, ValueRecord)) -> (copy: (Vec<u8>, ValueRecord))
    ensures
        copy.0@ == entry.0@,
        copy.1@ == entry.1@,
{
    (copy_bytes(entry.0.as_slice()), entry.1.clone())
}

/// A map from keys to records whose entries stand in strictly increasing key
/// order.
#[derive(Debug)]
pub struct RecordMap {
    entries: Vec<(Vec<u8>, ValueRecord)>,
}

impl View for RecordMap {
    type V = Map<Seq<u8>, Option<Seq<u8>>>;

    open spec fn view(&self) -> Map<Seq<u8>, Option<Seq<u8>>> {
        records_of(self.rows())
    }
}

impl RecordMap {
    /// The entries in key order.
    pub closed spec fn rows(&self) -> Seq<(Seq<u8>, Option<Seq<u8>>)> {
        rows_of(self.entries@)
    }

    /// The entries stand in strictly increasing key order.
    pub open spec fn wf(&self) -> bool {
        sorted(self.rows())
    }

    /// A map without entries.
    pub fn new() -> (map: Self)
        ensures
            map.wf(),
            map.rows() == Seq::<(Seq<u8>, Option<Seq<u8>>)>::empty(),
    {
        let map = RecordMap { entries: Vec::new() };
        assert(map.rows() =~= Seq::empty());
        map
    }

    /// How many entries there are.
    pub fn len(&self) -> (n: usize)
        ensures
            n == self.rows().len(),
    {
        self.entries.len()
    }

    /// The first position whose key does not come before `key`.
    fn lower_bound(&self, key: &[u8]) -> (at: usize)
        requires
            self.wf(),
        ensures
            at <= self.entries.len(),
            forall|i: int| 0 <= i < at ==> lex_lt(#[trigger] self.rows()[i].0, key@),
            forall|i: int| at <= i < self.rows().len() ==> !lex_lt(#[trigger] self.rows()[i].0, key@),
    {
        let mut left: usize = 0;
        let mut right: usize = self.entries.len();
        while left < right
            invariant
                self.wf(),
                left <= right <= self.entries.len(),
                forall|i: int| 0 <= i < left ==> lex_lt(#[trigger] self.rows()[i].0, key@),
                forall|i: int|
                    right <= i < self.rows().len() ==> !lex_lt(#[trigger] self.rows()[i].0, key@),
            decreases right - left,
        {
            let mid: usize = left + (right - left) / 2;
            let ghost found = self.rows()[mid as int].0;
            match compare(self.entries[mid].0.as_slice(), key) {
                Order::Less => {
                    assert forall|i: int| 0 <= i <= mid implies lex_lt(
                        #[trigger] self.rows()[i].0,
                        key@,
                    ) by {
                        if i < mid {
                            lemma_lex_transitive(self.rows()[i].0, found, key@);
                        }
                    }
                    left = mid + 1;
                },
                _ => {
                    assert forall|i: int| mid <= i < self.rows().len() implies !lex_lt(
                        #[trigger] self.rows()[i].0,
                        key@,
                    ) by {
                        if i > mid && lex_lt(self.rows()[i].0, key@) {
                            lemma_lex_transitive(found, self.rows()[i].0, key@);
                        }
                    }
                    right = mid;
                },
            }
        }
        left
    }

    /// The record of a key.
    pub fn get(&self, key: &[u8]) -> (record: Option<&ValueRecord>)
        requires
            self.wf(),
        ensures
            record is Some <==> self@.contains_key(key@),
            record is Some ==> record->0@ == self@[key@],
    {
        let at = self.lower_bound(key);
        proof {
            lemma_records_of_sorted(self.rows());
        }
        if at < self.entries.len() {
            if let Order::Equal = compare(self.entries[at].0.as_slice(), key) {
                assert(self.rows()[at as int].0 == key@);
                return Some(&self.entries[at].1);
            }
        }
        assert(!has_key(self.rows(), key@)) by {
            if has_key(self.rows(), key@) {
                let i = choose|i: int| 0 <= i < self.rows().len() && #[trigger] self.rows()[i].0 == key@;
                lemma_lex_irreflexive(key@);
                assert(i >= at);
                if i > at {
                    assert(lex_lt(self.rows()[at as int].0, self.rows()[i].0));
                }
            }
        }
        None
    }

    /// Gives a key a record. What it had before is handed back.
    pub fn insert(&mut self, key: Vec<u8>, record: ValueRecord) -> (before: Option<ValueRecord>)
        requires
            old(self).wf(),
        ensures
            final(self).wf(),
            final(self)@ == old(self)@.insert(key@, record@),
            before is Some <==> old(self)@.contains_key(key@),
            before is Some ==> before->0@ == old(self)@[key@],
            exists|at: int| #[trigger]
                is_place(old(self).rows(), key@, at) && final(self).rows() == placed(
                    old(self).rows(),
                    at,
                    (key@, record@),
                ),
    {
        let at = self.lower_bound(key.as_slice());
        let ghost old_rows = self.rows();
        let ghost row = (key@, record@);
        proof {
            lemma_records_of_sorted(old_rows);
            assert(is_place(old_rows, key@, at as int));
            lemma_placed(old_rows, at as int, row);
            lemma_records_of_sorted(placed(old_rows, at as int, row));
        }
        if at < self.entries.len() {
            if let Order::Equal = compare(self.entries[at].0.as_slice(), key.as_slice()) {
                assert(old_rows[at as int].0 == key@);
                let mut slot = record;
                std::mem::swap(&mut self.entries[at].1, &mut slot);
                assert(self.rows() =~= placed(old_rows, at as int, row));
                return Some(slot);
            }
        }
        proof {
            assert(!has_key(old_rows, key@)) by {
                if has_key(old_rows, key@) {
                    let i = choose|i: int| 0 <= i < old_rows.len() && #[trigger] old_rows[i].0 == key@;
                    lemma_lex_irreflexive(key@);
                    assert(i >= at);
                    if i > at {
                        assert(lex_lt(old_rows[at as int].0, old_rows[i].0));
                    }
                }
            }
        }
        self.entries.insert(at, (key, record));
        assert(self.rows() =~= placed(old_rows, at as int, row));
        None
    }

    /// Drops all entries.
    pub fn clear(&mut self)
        ensures
            final(self).wf(),
            final(self).rows() == Seq::<(Seq<u8>, Option<Seq<u8>>)>::empty(),
    {
        self.entries.clear();
        assert(self.rows() =~= Seq::empty());
    }

    /// The entries in key order, by reference.
    pub fn entries(&self) -> (all: Vec<(&[u8], &ValueRecord)>)
        ensures
            all.len() == self.rows().len(),
            forall|i: int|
                0 <= i < all.len() ==> (#[trigger] all[i]).0@ == self.rows()[i].0 && all[i].1@
                    == self.rows()[i].1,
    {
        let mut all: Vec<(&[u8], &ValueRecord)> = Vec::with_capacity(self.entries.len());
        let mut i: usize = 0;
        while i < self.entries.len()
            invariant
                i <= self.entries.len(),
                all.len() == i,
                forall|j: int|
                    0 <= j < i ==> (#[trigger] all[j]).0@ == self.rows()[j].0 && all[j].1@
                        == self.rows()[j].1,
            decreases self.entries.len() - i,
        {
            all.push((self.entries[i].0.as_slice(), &self.entries[i].1));
            i += 1;
        }
        all
    }

    /// A copy of the entries in key order.
    pub fn to_vec(&self) -> (all: Vec<(Vec<u8>, ValueRecord)>)
        ensures
            rows_of(all@) == self.rows(),
    {
        let mut all: Vec<(Vec<u8>, ValueRecord)> = Vec::with_capacity(self.entries.len());
        let mut i: usize = 0;
        while i < self.entries.len()
            invariant
                i <= self.entries.len(),
                rows_of(all@) == self.rows().take(i as int),
            decreases self.entries.len() - i,
        {
            let ghost before = all@;
            all.push(copy_entry(&self.entries[i]));
            assert(rows_of(all@) =~= rows_of(before).push(self.rows()[i as int]));
            assert(self.rows().take(i + 1) =~= self.rows().take(i as int).push(
                self.rows()[i as int],
            ));
            i += 1;
        }
        assert(self.rows().take(i as int) =~= self.rows());
        assert(rows_of(all@) =~= self.rows());
        all
    }

    /// A copy of the first `limit` entries whose keys start with `prefix`.
    pub fn scan_prefix(&self, prefix: &[u8], limit: usize) -> (found: Vec<(Vec<u8>, ValueRecord)>)
        requires
            self.wf(),
        ensures
            rows_of(found@) == at_most(with_prefix(self.rows(), prefix@), limit as nat),
    {
        let start = self.lower_bound(prefix);
        let ghost rows = self.rows();
        let mut found: Vec<(Vec<u8>, ValueRecord)> = Vec::new();
        let mut i: usize = start;
        assert(rows_of(found@) =~= rows.subrange(start as int, i as int));
        while i < self.entries.len() && found.len() < limit
            invariant
                self.wf(),
                rows == self.rows(),
                rows.len() == self.entries.len(),
                start <= i <= self.entries.len(),
                found.len() == i - start,
                found.len() <= limit,
                rows_of(found@) == rows.subrange(start as int, i as int),
                forall|j: int| 0 <= j < start ==> lex_lt(#[trigger] rows[j].0, prefix@),
                forall|j: int| start <= j < rows.len() ==> !lex_lt(#[trigger] rows[j].0, prefix@),
                forall|j: int| start <= j < i ==> prefix@.is_prefix_of(#[trigger] rows[j].0),
            ensures
                start <= i <= rows.len(),
                found.len() == i - start,
                found.len() <= limit,
                rows_of(found@) == rows.subrange(start as int, i as int),
                forall|j: int| start <= j < i ==> prefix@.is_prefix_of(#[trigger] rows[j].0),
                i == rows.len() || found.len() == limit || !prefix@.is_prefix_of(rows[i as int].0),
            decreases self.entries.len() - i,
        {
            assert(rows[i as int].0 == self.entries@[i as int].0@);
            if !starts_with(self.entries[i].0.as_slice(), prefix) {
                break;
            }
            let ghost before = found@;
            found.push(copy_entry(&self.entries[i]));
            assert(rows_of(found@) =~= rows_of(before).push(rows[i as int]));
            assert(rows.subrange(start as int, i + 1) =~= rows.subrange(start as int, i as int).push(
                rows[i as int],
            ));
            i += 1;
        }
        proof {
            lemma_run_prefix(rows, prefix@, start as int, i as int);
            let all = with_prefix(rows, prefix@);
            assert(rows_of(found@).len() == found.len());
            if all.len() <= limit {
                if found.len() < limit {
                    lemma_prefix_run(rows, prefix@, start as int, i as int);
                }
                assert(rows_of(found@) =~= at_most(all, limit as nat));
            } else {
                if found.len() < limit {
                    lemma_prefix_run(rows, prefix@, start as int, i as int);
                }
                assert(rows_of(found@) =~= at_most(all, limit as nat));
            }
        }
        found
    }

    /// The first `limit` entries that are no tombstones, without the mark.
    pub fn into_live_pairs(self, limit: usize) -> (pairs: Vec<(Vec<u8>, Vec<u8>)>)
        ensures
            pairs_of(pairs@) == at_most(live_rows(self.rows()), limit as nat),
    {
        let ghost rows = self.rows();
        let mut pairs: Vec<(Vec<u8>, Vec<u8>)> = Vec::new();
        let entries = self.entries;
        let ghost all = entries@;
        assert(rows.take(0) =~= Seq::empty());
        assert(pairs_of(pairs@) =~= at_most(live_rows(rows.take(0)), limit as nat));
        for entry in it: entries
            invariant
                it.seq() == all,
                rows == rows_of(all),
                pairs_of(pairs@) == at_most(live_rows(rows.take(it.index() as int)), limit as nat),
        {
            let ghost i = it.index() as int;
            assert(rows.take(i + 1).drop_last() =~= rows.take(i));
            assert(rows.take(i + 1).last() == (entry.0@, entry.1@));
            let ghost before = pairs@;
            if let ValueRecord::Value(value) = entry.1 {
                if pairs.len() < limit {
                    let ghost pair = (entry.0@, value@);
                    pairs.push((entry.0, value));
                    assert(pairs_of(pairs@) =~= pairs_of(before).push(pair));
                }
            }
            assert(pairs_of(before).len() == before.len());
            assert(pairs_of(pairs@) =~= at_most(live_rows(rows.take(i + 1)), limit as nat));
        }
        assert(rows.take(rows.len() as int) =~= rows);
        pairs
    }
}

/// Whether `at` is where a key stands, or would stand, among sorted rows.
pub open spec fn is_place(rows: Seq<(Seq<u8>, Option<Seq<u8>>)>, key: Seq<u8>, at: int) -> bool {
    &&& 0 <= at <= rows.len()
    &&& forall|i: int| 0 <= i < at ==> lex_lt(#[trigger] rows[i].0, key)
    &&& forall|i: int| at <= i < rows.len() ==> !lex_lt(#[trigger] rows[i].0, key)
}

/// Rows after one was put in its place: instead of the row with the same key,
/// where there is one, and between its neighbours otherwise.
pub open spec fn placed(
    rows: Seq<(Seq<u8>, Option<Seq<u8>>)>,
    at: int,
    row: (Seq<u8>, Option<Seq<u8>>),
) -> Seq<(Seq<u8>, Option<Seq<u8>>)> {
    if at < rows.len() && rows[at].0 == row.0 {
        rows.update(at, row)
    } else {
        rows.insert(at, row)
    }
}

/// A row put in its place keeps the order, and gives its key its record.
pub proof fn lemma_placed(
    rows: Seq<(Seq<u8>, Option<Seq<u8>>)>,
    at: int,
    row: (Seq<u8>, Option<Seq<u8>>),
)
    requires
        sorted(rows),
        is_place(rows, row.0, at),
    ensures
        sorted(placed(rows, at, row)),
        records_of(placed(rows, at, row)) == records_of(rows).insert(row.0, row.1),
{
    let new = placed(rows, at, row);
    if at < rows.len() {
        lemma_lex_total(rows[at].0, row.0);
    }
    if at < rows.len() && rows[at].0 == row.0 {
        assert forall|i: int, j: int| 0 <= i < j < new.len() implies lex_lt(
            #[trigger] new[i].0,
            #[trigger] new[j].0,
        ) by {
            assert(new[i].0 == rows[i].0);
            assert(new[j].0 == rows[j].0);
        }
        lemma_records_of_sorted(rows);
        lemma_records_of_sorted(new);
        assert(records_of(new) =~= records_of(rows).insert(row.0, row.1)) by {
            assert forall|key: Seq<u8>|
                has_key(new, key) == (has_key(rows, key) || key == row.0) by {
                if has_key(new, key) {
                    let i = choose|i: int| 0 <= i < new.len() && #[trigger] new[i].0 == key;
                    assert(rows[i].0 == key);
                }
                if has_key(rows, key) {
                    let i = choose|i: int| 0 <= i < rows.len() && #[trigger] rows[i].0 == key;
                    assert(new[i].0 == key);
                }
                assert(new[at].0 == row.0);
            }
            assert forall|key: Seq<u8>| #[trigger]
                records_of(new).contains_key(key) implies records_of(new)[key] == records_of(
                rows,
            ).insert(row.0, row.1)[key] by {
                let i = choose|i: int| 0 <= i < new.len() && #[trigger] new[i].0 == key;
                assert(records_of(new)[new[i].0] == new[i].1);
                assert(rows[i].0 == key);
                if i != at {
                    assert(new[i] == rows[i]);
                    if i < at {
                        assert(lex_lt(rows[i].0, rows[at].0));
                    } else {
                        assert(lex_lt(rows[at].0, rows[i].0));
                    }
                    lemma_lex_irreflexive(key);
                    assert(records_of(rows)[rows[i].0] == rows[i].1);
                }
            }
        }
    } else {
        assert forall|i: int| at <= i < rows.len() implies lex_lt(row.0, #[trigger] rows[i].0) by {
            lemma_lex_total(rows[i].0, row.0);
            if rows[i].0 == row.0 {
                assert(lex_lt(rows[at].0, rows[i].0));
                assert(false);
            }
        }
        assert forall|i: int, j: int| 0 <= i < j < new.len() implies lex_lt(
            #[trigger] new[i].0,
            #[trigger] new[j].0,
        ) by {
            let a = if i < at {
                rows[i]
            } else if i == at {
                row
            } else {
                rows[i - 1]
            };
            let b = if j < at {
                rows[j]
            } else if j == at {
                row
            } else {
                rows[j - 1]
            };
            assert(new[i] == a);
            assert(new[j] == b);
        }
        lemma_records_of_sorted(rows);
        lemma_records_of_sorted(new);
        assert(records_of(new) =~= records_of(rows).insert(row.0, row.1)) by {
            assert forall|key: Seq<u8>|
                has_key(new, key) == (has_key(rows, key) || key == row.0) by {
                if has_key(new, key) {
                    let i = choose|i: int| 0 <= i < new.len() && #[trigger] new[i].0 == key;
                    if i < at {
                        assert(rows[i].0 == key);
                    } else if i > at {
                        assert(rows[i - 1].0 == key);
                    }
                }
                if has_key(rows, key) {
                    let i = choose|i: int| 0 <= i < rows.len() && #[trigger] rows[i].0 == key;
                    if i < at {
                        assert(new[i].0 == key);
                    } else {
                        assert(new[i + 1].0 == key);
                    }
                }
                assert(new[at].0 == row.0);
            }
            assert forall|key: Seq<u8>| #[trigger]
                records_of(new).contains_key(key) implies records_of(new)[key] == records_of(
                rows,
            ).insert(row.0, row.1)[key] by {
                let i = choose|i: int| 0 <= i < new.len() && #[trigger] new[i].0 == key;
                assert(records_of(new)[new[i].0] == new[i].1);
                lemma_lex_irreflexive(key);
                if i < at {
                    assert(new[i] == rows[i]);
                    assert(records_of(rows)[rows[i].0] == rows[i].1);
                } else if i > at {
                    assert(new[i] == rows[i - 1]);
                    assert(records_of(rows)[rows[i - 1].0] == rows[i - 1].1);
                }
            }
        }
    }
}

/// A run of keys with a prefix, from where the keys no longer come before it, is
/// how the rows with that prefix begin.
pub proof fn lemma_run_prefix<V>(rows: Seq<(Seq<u8>, V)>, prefix: Seq<u8>, from: int, to: int)
    requires
        sorted(rows),
        0 <= from <= to <= rows.len(),
        forall|i: int| 0 <= i < from ==> lex_lt(#[trigger] rows[i].0, prefix),
        forall|i: int| from <= i < rows.len() ==> !lex_lt(#[trigger] rows[i].0, prefix),
        forall|i: int| from <= i < to ==> prefix.is_prefix_of(#[trigger] rows[i].0),
    ensures
        with_prefix(rows, prefix).len() >= to - from,
        with_prefix(rows, prefix).take(to - from) == rows.subrange(from, to),
    decreases rows.len() - to,
{
    if to < rows.len() && prefix.is_prefix_of(rows[to].0) {
        lemma_run_prefix(rows, prefix, from, to + 1);
        assert(with_prefix(rows, prefix).take(to + 1 - from).take(to - from) =~= with_prefix(
            rows,
            prefix,
        ).take(to - from));
        assert(rows.subrange(from, to + 1).take(to - from) =~= rows.subrange(from, to));
    } else {
        lemma_prefix_run(rows, prefix, from, to);
        assert(rows.subrange(from, to).take(to - from) =~= rows.subrange(from, to));
    }
}

/// A value takes as many bytes as it has, and a tombstone none.
pub proof fn law_size_of_a_record(value: Seq<u8>)
    ensures
        value_size(Some(value)) == value.len(),
        value_size(None) == 0,
{
}

/// Entries and pairs are spoken of one by one, in their order, as they are.
pub proof fn law_view_of_entries_and_pairs(
    entries: Seq<(Vec<u8>, ValueRecord)>,
    pairs: Seq<(Vec<u8>, Vec<u8>)>,
)
    ensures
        rows_of(entries).len() == entries.len(),
        forall|i: int|
            0 <= i < entries.len() ==> (#[trigger] rows_of(entries)[i]).0 == entries[i].0@
                && rows_of(entries)[i].1 == (match entries[i].1 {
                ValueRecord::Value(value) => Some(value@),
                ValueRecord::Tombstone => None,
            }),
        pairs_of(pairs).len() == pairs.len(),
        forall|i: int|
            0 <= i < pairs.len() ==> (#[trigger] pairs_of(pairs)[i]).0 == pairs[i].0@ && pairs_of(
                pairs,
            )[i].1 == pairs[i].1@,
{
}

} // verus!
