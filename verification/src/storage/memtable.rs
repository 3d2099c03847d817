//! The writes that are not in a table file yet.
use vstd::prelude::*;

use crate::bytes::copy_bytes;
use crate::storage::record_map::{is_place, placed, rows_of, value_size, RecordMap};
use crate::storage::rows::{at_most, lemma_records_of_sorted, records_of, sorted, with_prefix};

pub use crate::storage::record_map::ValueRecord;

verus! {

/// What a row adds to the size of a table.
pub open spec fn row_size(row: (Seq<u8>, Option<Seq<u8>>)) -> nat {
    row.0.len() + value_size(row.1) + 1
}

/// The size of rows together.
pub open spec fn total_size(rows: Seq<(Seq<u8>, Option<Seq<u8>>)>) -> nat
    decreases rows.len(),
{
    if rows.len() == 0 {
        0
    } else {
        total_size(rows.drop_last()) + row_size(rows.last())
    }
}

/// The size of one row.
pub proof fn lemma_total_size_one(row: (Seq<u8>, Option<Seq<u8>>))
    ensures
        total_size(seq![row]) == row_size(row),
{
    assert(seq![row].drop_last() =~= Seq::empty());
    assert(total_size(seq![row].drop_last()) == 0);
}

/// The size of two runs of rows is the sum of their sizes.
pub proof fn lemma_total_size_concat(
    a: Seq<(Seq<u8>, Option<Seq<u8>>)>,
    b: Seq<(Seq<u8>, Option<Seq<u8>>)>,
)
    ensures
        total_size(a + b) == total_size(a) + total_size(b),
    decreases b.len(),
{
    if b.len() == 0 {
        assert(a + b =~= a);
    } else {
        assert((a + b).drop_last() =~= a + b.drop_last());
        lemma_total_size_concat(a, b.drop_last());
    }
}

/// The size of rows, split around one of them.
proof fn lemma_total_size_around(rows: Seq<(Seq<u8>, Option<Seq<u8>>)>, at: int)
    requires
        0 <= at < rows.len(),
    ensures
        total_size(rows) == total_size(rows.take(at)) + row_size(rows[at]) + total_size(
            rows.skip(at + 1),
        ),
{
    let one = seq![rows[at]];
    assert(rows =~= rows.take(at) + one + rows.skip(at + 1));
    lemma_total_size_concat(rows.take(at) + one, rows.skip(at + 1));
    lemma_total_size_concat(rows.take(at), one);
    lemma_total_size_one(rows[at]);
}

/// The size of rows after one was put in its place.
pub proof fn lemma_placed_size(
    rows: Seq<(Seq<u8>, Option<Seq<u8>>)>,
    at: int,
    row: (Seq<u8>, Option<Seq<u8>>),
)
    requires
        0 <= at <= rows.len(),
    ensures
        total_size(placed(rows, at, row)) == total_size(rows) + row_size(row) - (if at < rows.len()
            && rows[at].0 == row.0 {
            row_size(rows[at])
        } else {
            0
        }),
        at < rows.len() ==> total_size(rows) >= row_size(rows[at]),
{
    let new = placed(rows, at, row);
    lemma_total_size_around(new, at);
    if at < rows.len() {
        lemma_total_size_around(rows, at);
    }
    if at < rows.len() && rows[at].0 == row.0 {
        assert(new.take(at) =~= rows.take(at));
        assert(new.skip(at + 1) =~= rows.skip(at + 1));
    } else {
        assert(new.take(at) =~= rows.take(at));
        assert(new.skip(at + 1) =~= rows.skip(at));
        assert(rows =~= rows.take(at) + rows.skip(at));
        lemma_total_size_concat(rows.take(at), rows.skip(at));
    }
}

/// The size that an entry adds to a table.
fn entry_size(key: &[u8], record: &ValueRecord) -> (size: usize)
    requires
        row_size((key@, record@)) <= usize::MAX,
    ensures
        size as nat == row_size((key@, record@)),
{
    key.len() + record.heap_bytes() + 1
}

/// A sorted table of records in memory, which keeps count of its size.
#[derive(Debug)]
pub struct MemTable {
    entries: RecordMap,
    approximate_bytes: usize,
}

impl View for MemTable {
    type V = Map<Seq<u8>, Option<Seq<u8>>>;

    open spec fn view(&self) -> Map<Seq<u8>, Option<Seq<u8>>> {
        records_of(self.rows())
    }
}

impl Default for MemTable {
    /// A table without entries.
    fn default() -> (table: Self)
        ensures
            table.wf(),
            table.rows() == Seq::<(Seq<u8>, Option<Seq<u8>>)>::empty(),
    {
        MemTable { entries: RecordMap::new(), approximate_bytes: 0 }
    }
}

impl MemTable {
    /// The records in key order.
    pub closed spec fn rows(&self) -> Seq<(Seq<u8>, Option<Seq<u8>>)> {
        self.entries.rows()
    }

    /// The size that was counted.
    pub closed spec fn bytes(&self) -> nat {
        self.approximate_bytes as nat
    }

    /// The records stand in strictly increasing key order, and the count is the
    /// size of them all.
    pub open spec fn wf(&self) -> bool {
        &&& sorted(self.rows())
        &&& self.bytes() == total_size(self.rows())
    }

    /// A table without entries.
    pub fn new() -> (table: Self)
        ensures
            table.wf(),
            table.rows() == Seq::<(Seq<u8>, Option<Seq<u8>>)>::empty(),
    {
        Self::default()
    }

    /// Gives a key a value.
    pub fn put(&mut self, key: &[u8], value: &[u8])
        requires
            old(self).wf(),
            old(self).bytes() + row_size((key@, Some(value@))) <= usize::MAX,
        ensures
            final(self).wf(),
            final(self)@ == old(self)@.insert(key@, Some(value@)),
            final(self).bytes() <= old(self).bytes() + row_size((key@, Some(value@))),
    {
        self.insert(copy_bytes(key), ValueRecord::Value(copy_bytes(value)));
    }

    /// Marks a key as deleted.
    pub fn delete(&mut self, key: &[u8])
        requires
            old(self).wf(),
            old(self).bytes() + row_size((key@, None)) <= usize::MAX,
        ensures
            final(self).wf(),
            final(self)@ == old(self)@.insert(key@, None),
            final(self).bytes() <= old(self).bytes() + row_size((key@, None)),
    {
        self.insert(copy_bytes(key), ValueRecord::Tombstone);
    }

    /// The record of a key, a tombstone too.
    pub fn get(&self, key: &[u8]) -> (record: Option<&ValueRecord>)
        requires
            self.wf(),
        ensures
            record is Some <==> self@.contains_key(key@),
            record is Some ==> record->0@ == self@[key@],
    {
        self.entries.get(key)
    }

    /// The value of a key that has one.
    pub fn get_value(&self, key: &[u8]) -> (value: Option<&[u8]>)
        requires
            self.wf(),
        ensures
            value is Some <==> self@.contains_key(key@) && self@[key@] is Some,
            value is Some ==> Some(value->0@) == self@[key@],
    {
        match self.get(key) {
            Some(record) => record.as_value(),
            None => None,
        }
    }

    /// The entries in key order.
    pub fn iter(&self) -> (all: Vec<(&[u8], &ValueRecord)>)
        ensures
            all.len() == self.rows().len(),
            forall|i: int|
                0 <= i < all.len() ==> (#[trigger] all[i]).0@ == self.rows()[i].0 && all[i].1@
                    == self.rows()[i].1,
    {
        self.entries.entries()
    }

    /// A copy of the entries in key order.
    pub fn to_vec(&self) -> (all: Vec<(Vec<u8>, ValueRecord)>)
        ensures
            rows_of(all@) == self.rows(),
    {
        self.entries.to_vec()
    }

    /// Drops all entries.
    pub fn clear(&mut self)
        ensures
            final(self).wf(),
            final(self).rows() == Seq::<(Seq<u8>, Option<Seq<u8>>)>::empty(),
    {
        self.entries.clear();
        self.approximate_bytes = 0;
    }

    /// A copy of the first `limit` entries, in key order, whose keys start with
    /// `prefix`.
    pub fn scan_prefix(&self, prefix: &[u8], limit: usize) -> (found: Vec<(Vec<u8>, ValueRecord)>)
        requires
            self.wf(),
        ensures
            rows_of(found@) == at_most(with_prefix(self.rows(), prefix@), limit as nat),
    {
        self.entries.scan_prefix(prefix, limit)
    }

    /// How many keys have a record.
    pub fn len(&self) -> (n: usize)
        ensures
            n == self.rows().len(),
    {
        self.entries.len()
    }

    /// Whether no key has a record.
    pub fn is_empty(&self) -> (yes: bool)
        ensures
            yes == (self.rows().len() == 0),
    {
        self.entries.len() == 0
    }

    /// The size of the table: of each entry, the bytes of its key, the bytes of
    /// its value, and one more.
    pub fn approximate_bytes(&self) -> (bytes: usize)
        requires
            self.wf(),
        ensures
            bytes == self.bytes(),
            bytes == total_size(self.rows()),
            bytes == summed_size(self.rows()),
    {
        proof {
            law_size_is_the_sum(self.rows());
        }
        self.approximate_bytes
    }

    /// Whether the table has reached a size.
    pub fn should_flush(&self, threshold_bytes: usize) -> (yes: bool)
        requires
            self.wf(),
        ensures
            yes == (total_size(self.rows()) >= threshold_bytes),
            yes == (summed_size(self.rows()) >= threshold_bytes),
    {
        proof {
            law_size_is_the_sum(self.rows());
        }
        self.approximate_bytes >= threshold_bytes
    }

    /// Gives a key a record, and counts the difference.
    fn insert(&mut self, key: Vec<u8>, record: ValueRecord)
        requires
            old(self).wf(),
            old(self).bytes() + row_size((key@, record@)) <= usize::MAX,
        ensures
            final(self).wf(),
            final(self)@ == old(self)@.insert(key@, record@),
            final(self).bytes() <= old(self).bytes() + row_size((key@, record@)),
    {
        let ghost rows = self.rows();
        let ghost row = (key@, record@);
        let new_size = entry_size(key.as_slice(), &record);
        let key_size = key.len();
        let before = self.entries.insert(key, record);
        proof {
            let at = choose|at: int| #[trigger]
                is_place(rows, row.0, at) && self.entries.rows() == placed(rows, at, row);
            lemma_placed_size(rows, at, row);
            lemma_records_of_sorted(rows);
            lemma_place_of_key(rows, row.0, at);
        }
        let old_size: usize = match &before {
            Some(old_record) => key_size + old_record.heap_bytes() + 1,
            None => 0,
        };
        self.approximate_bytes = self.approximate_bytes + new_size;
        self.approximate_bytes = self.approximate_bytes.saturating_sub(old_size);
    }
}

/// A key that a row has stands in its place.
proof fn lemma_place_of_key(rows: Seq<(Seq<u8>, Option<Seq<u8>>)>, key: Seq<u8>, at: int)
    requires
        sorted(rows),
        is_place(rows, key, at),
    ensures
        records_of(rows).contains_key(key) <==> at < rows.len() && rows[at].0 == key,
        records_of(rows).contains_key(key) ==> records_of(rows)[key] == rows[at].1,
{
    lemma_records_of_sorted(rows);
    crate::bytes::lemma_lex_irreflexive(key);
    if records_of(rows).contains_key(key) {
        let i = choose|i: int| 0 <= i < rows.len() && #[trigger] rows[i].0 == key;
        assert(i >= at);
        if i > at {
            assert(crate::bytes::lex_lt(rows[at].0, rows[i].0));
        }
    }
}

/// The sum over rows of the length of the key, the length of the value, which a
/// tombstone does not have, and one.
pub open spec fn summed_size(rows: Seq<(Seq<u8>, Option<Seq<u8>>)>) -> int {
    rows.fold_left(
        0int,
        |sum: int, row: (Seq<u8>, Option<Seq<u8>>)|
            sum + row.0.len() + (match row.1 {
                Some(value) => value.len() as int,
                None => 0int,
            }) + 1,
    )
}

/// The size of rows is the sum over all of them of the length of the key, the length of
/// the value, none for a tombstone, and one.
pub proof fn law_size_is_the_sum(rows: Seq<(Seq<u8>, Option<Seq<u8>>)>)
    ensures
        total_size(rows) == summed_size(rows),
    decreases rows.len(),
{
    if rows.len() > 0 {
        law_size_is_the_sum(rows.drop_last());
    }
}

/// A row adds the length of its key, the length of its value and one; without a value,
/// the length of its key and one.
pub proof fn law_size_of_one_more_row(
    rows: Seq<(Seq<u8>, Option<Seq<u8>>)>,
    key: Seq<u8>,
    value: Seq<u8>,
)
    ensures
        total_size(Seq::empty()) == 0,
        total_size(rows.push((key, Some(value)))) == total_size(rows) + key.len() + value.len() + 1,
        total_size(rows.push((key, None))) == total_size(rows) + key.len() + 1,
        row_size((key, Some(value))) == key.len() + value.len() + 1,
        row_size((key, None)) == key.len() + 1,
{
    assert(rows.push((key, Some(value))).drop_last() =~= rows);
    assert(rows.push((key, None)).drop_last() =~= rows);
}

} // verus!
