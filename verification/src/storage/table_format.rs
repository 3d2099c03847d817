//! The layout of a table file.
//!
//! A table file holds, one behind the other,
//!
//! ```text
//! data     [key_len u32][value_len u32][kind u8][key][value]   for each row
//! index    [count u32] and [key_len u32][key][offset u64]      for each row
//! filter   [bit_len u64][hash_count u32][byte_len u32][bytes]
//! footer   [index offset u64][filter offset u64][magic u64]
//! ```
//!
//! with all numbers little-endian. A file of the first version has no filter, and
//! its footer is `[index offset u64][magic u64]`.
use vstd::prelude::*;
use vstd::string::StringExecFns;

use crate::bytes::{
    compare, copy_range, holds_u32, holds_u64, law_bytes_of_a_number, law_number_in_eight_bytes,
    law_number_in_four_bytes, le_bytes, le_value, lemma_byte_range, lemma_le_len,
    lemma_le_value_bound, lemma_le_value_of_bytes, lex_lt, push_bytes, push_u32, push_u64,
    read_u32, read_u64, Order,
};
use crate::storage::bloom::{BloomFilter, FilterView};
use crate::storage::error::{
    corrupt_sstable, eof, eof_error, invalid_input, outcome, ErrorView, StorageError,
};
use crate::storage::record_map::ValueRecord;
use crate::storage::rows::{no_empty_key, sorted};
use crate::text::{decimal, push_decimal};

verus! {

/// The last eight bytes of a file of the first version.
pub const MAGIC_V1: u64 = 0x4b_56_53_53_54_41_42_4c;

/// The last eight bytes of a file of the second version.
pub const MAGIC_V2: u64 = 0x4b_56_53_53_54_42_4c_32;

/// How long the footer of the first version is.
pub const FOOTER_V1_LEN: u64 = 16;

/// How long the footer of the second version is.
pub const FOOTER_V2_LEN: u64 = 24;

/// The kind of a row with a value.
pub const VALUE: u8 = 1;

/// The kind of a row that was deleted.
pub const TOMBSTONE: u8 = 2;

// Data records.

/// The value bytes of a record.
pub open spec fn value_bytes(record: Option<Seq<u8>>) -> Seq<u8> {
    match record {
        Some(value) => value,
        None => Seq::empty(),
    }
}

/// The kind of a record.
pub open spec fn kind_of(record: Option<Seq<u8>>) -> u8 {
    match record {
        Some(_) => VALUE,
        None => TOMBSTONE,
    }
}

/// The bytes of a row.
pub open spec fn data_record(row: (Seq<u8>, Option<Seq<u8>>)) -> Seq<u8> {
    le_bytes(row.0.len(), 4) + le_bytes(value_bytes(row.1).len(), 4) + seq![kind_of(row.1)] + row.0
        + value_bytes(row.1)
}

/// The bytes of a row, or why it has none.
pub open spec fn encode_data_spec(row: (Seq<u8>, Option<Seq<u8>>)) -> Result<Seq<u8>, ErrorView> {
    if row.0.len() == 0 {
        Err(ErrorView::InvalidInput("SSTable keys must not be empty"@))
    } else if row.0.len() > u32::MAX {
        Err(ErrorView::InvalidInput("key is too large to encode in SSTable"@))
    } else if value_bytes(row.1).len() > u32::MAX {
        Err(ErrorView::InvalidInput("value is too large to encode in SSTable"@))
    } else {
        Ok(data_record(row))
    }
}

/// The row that bytes begin with, or what is wrong with them.
pub open spec fn decode_data_spec(b: Seq<u8>) -> Result<(Seq<u8>, Option<Seq<u8>>), ErrorView> {
    let key_len = le_value(b.subrange(0, 4)) as int;
    let value_len = le_value(b.subrange(4, 8)) as int;
    let kind = b[8];
    let key = b.subrange(9, 9 + key_len);
    let value = b.subrange(9 + key_len, 9 + key_len + value_len);
    if b.len() < 9 {
        Err(eof_error())
    } else if key_len == 0 {
        Err(ErrorView::CorruptSstable("data record contains an empty key"@))
    } else if b.len() < 9 + key_len + value_len {
        Err(eof_error())
    } else if kind == VALUE {
        Ok((key, Some(value)))
    } else if kind == TOMBSTONE && value_len == 0 {
        Ok((key, None))
    } else if kind == TOMBSTONE {
        Err(ErrorView::CorruptSstable("tombstone data record contains a value"@))
    } else {
        Err(ErrorView::CorruptSstable("unknown SSTable record kind "@ + decimal(kind as nat)))
    }
}

/// A row as it is read from a table file.
#[derive(Debug)]
pub struct DataRecord {
    pub key: Vec<u8>,
    pub record: ValueRecord,
}

impl View for DataRecord {
    type V = (Seq<u8>, Option<Seq<u8>>);

    open spec fn view(&self) -> (Seq<u8>, Option<Seq<u8>>) {
        (self.key@, self.record@)
    }
}

/// Appends the bytes of a row; nothing where the row has none.
pub fn write_data_record(out: &mut Vec<u8>, key: &[u8], record: &ValueRecord) -> (done: Result<
    (),
    StorageError,
>)
    ensures
        match encode_data_spec((key@, record@)) {
            Ok(bytes) => done is Ok && final(out)@ == old(out)@ + bytes,
            Err(error) => done is Err && done->Err_0@ == error && final(out)@ == old(out)@,
        },
{
    if key.len() == 0 {
        return Err(invalid_input("SSTable keys must not be empty"));
    }
    if key.len() > u32::MAX as usize {
        return Err(invalid_input("key is too large to encode in SSTable"));
    }
    let value_len: usize = record.heap_bytes();
    assert(value_len == value_bytes(record@).len());
    if value_len > u32::MAX as usize {
        return Err(invalid_input("value is too large to encode in SSTable"));
    }
    push_u32(out, key.len() as u32);
    push_u32(out, value_len as u32);
    match record {
        ValueRecord::Value(value) => {
            out.push(VALUE);
            push_bytes(out, key);
            push_bytes(out, value.as_slice());
        },
        ValueRecord::Tombstone => {
            out.push(TOMBSTONE);
            push_bytes(out, key);
        },
    }
    assert(out@ =~= old(out)@ + data_record((key@, record@)));
    Ok(())
}

/// Reads the row that bytes begin with.
pub fn read_data_record(b: &[u8]) -> (row: Result<DataRecord, StorageError>)
    ensures
        outcome(row) == decode_data_spec(b@),
{
    if b.len() < 9 {
        return Err(eof());
    }
    let key_len = read_u32(b, 0);
    let value_len = read_u32(b, 4);
    let kind: u8 = b[8];
    if key_len == 0 {
        return Err(corrupt_sstable("data record contains an empty key"));
    }
    if (b.len() as u64) < 9 + key_len as u64 + value_len as u64 {
        return Err(eof());
    }
    let key_end: usize = 9 + key_len as usize;
    let key = copy_range(b, 9, key_end);
    if kind == VALUE {
        let value = copy_range(b, key_end, key_end + value_len as usize);
        Ok(DataRecord { key, record: ValueRecord::Value(value) })
    } else if kind == TOMBSTONE && value_len == 0 {
        Ok(DataRecord { key, record: ValueRecord::Tombstone })
    } else if kind == TOMBSTONE {
        Err(corrupt_sstable("tombstone data record contains a value"))
    } else {
        let mut message = String::from_str("unknown SSTable record kind ");
        push_decimal(&mut message, kind as u64);
        Err(StorageError::CorruptSstable(message))
    }
}

/// How many bytes a row takes, as its first nine bytes state it.
pub open spec fn record_span_spec(header: Seq<u8>) -> nat {
    9 + le_value(header.subrange(0, 4)) + le_value(header.subrange(4, 8))
}

/// How many bytes a row takes, given the nine that it begins with; `None` where
/// there are fewer.
pub fn record_span(header: &[u8]) -> (span: Option<u64>)
    ensures
        span is Some <==> header.len() >= 9,
        span is Some ==> span->0 == record_span_spec(header@),
{
    if header.len() < 9 {
        return None;
    }
    let key_len = read_u32(header, 0);
    let value_len = read_u32(header, 4);
    Some(9 + key_len as u64 + value_len as u64)
}

/// Reading a row needs no bytes behind those that its header states.
pub proof fn law_record_span_suffices(b: Seq<u8>, n: int)
    requires
        b.len() >= 9,
        0 <= n <= b.len(),
        n >= record_span_spec(b) || n == b.len(),
    ensures
        decode_data_spec(b.take(n)) == decode_data_spec(b),
{
    let part = b.take(n);
    let key_len = le_value(b.subrange(0, 4)) as int;
    let value_len = le_value(b.subrange(4, 8)) as int;
    assert(part.subrange(0, 4) =~= b.subrange(0, 4));
    assert(part.subrange(4, 8) =~= b.subrange(4, 8));
    if b.len() >= 9 + key_len + value_len {
        assert(part.subrange(9, 9 + key_len) =~= b.subrange(9, 9 + key_len));
        assert(part.subrange(9 + key_len, 9 + key_len + value_len) =~= b.subrange(
            9 + key_len,
            9 + key_len + value_len,
        ));
    }
}

/// A row is read back from its bytes, whatever stands behind them.
pub proof fn law_data_round_trip(row: (Seq<u8>, Option<Seq<u8>>), rest: Seq<u8>)
    requires
        encode_data_spec(row) is Ok,
    ensures
        decode_data_spec(data_record(row) + rest) == Ok::<
            (Seq<u8>, Option<Seq<u8>>),
            ErrorView,
        >(row),
        data_record(row).len() >= 10,
{
    let value = value_bytes(row.1);
    let b = data_record(row) + rest;
    let key_field = le_bytes(row.0.len(), 4);
    let value_field = le_bytes(value.len(), 4);
    lemma_le_len(row.0.len(), 4);
    lemma_le_len(value.len(), 4);
    lemma_byte_range();
    lemma_le_value_of_bytes(row.0.len(), 4);
    lemma_le_value_of_bytes(value.len(), 4);
    assert(b.subrange(0, 4) =~= key_field);
    assert(b.subrange(4, 8) =~= value_field);
    assert(b[8] == kind_of(row.1));
    assert(b.subrange(9, 9 + row.0.len() as int) =~= row.0);
    assert(b.subrange(9 + row.0.len() as int, 9 + row.0.len() + value.len() as int) =~= value);
}

// The index block.

/// An entry of the index: a key, and where its row begins.
#[derive(Debug)]
pub struct IndexEntry {
    pub key: Vec<u8>,
    pub offset: u64,
}

impl View for IndexEntry {
    type V = (Seq<u8>, u64);

    open spec fn view(&self) -> (Seq<u8>, u64) {
        (self.key@, self.offset)
    }
}

/// Index entries as contracts speak of them.
pub open spec fn index_view(index: Seq<IndexEntry>) -> Seq<(Seq<u8>, u64)> {
    Seq::new(index.len(), |i: int| index[i]@)
}

/// The bytes of an index entry.
pub open spec fn index_entry_bytes(entry: (Seq<u8>, u64)) -> Seq<u8> {
    le_bytes(entry.0.len(), 4) + entry.0 + le_bytes(entry.1 as nat, 8)
}

/// The bytes of index entries, one behind the other.
pub open spec fn index_entries_bytes(index: Seq<(Seq<u8>, u64)>) -> Seq<u8>
    decreases index.len(),
{
    if index.len() == 0 {
        Seq::empty()
    } else {
        index_entries_bytes(index.drop_last()) + index_entry_bytes(index.last())
    }
}

/// The bytes of an index.
pub open spec fn index_block(index: Seq<(Seq<u8>, u64)>) -> Seq<u8> {
    le_bytes(index.len(), 4) + index_entries_bytes(index)
}

/// Whether all keys of an index are short enough for it.
pub open spec fn index_keys_fit(index: Seq<(Seq<u8>, u64)>) -> bool {
    forall|i: int| 0 <= i < index.len() ==> (#[trigger] index[i]).0.len() <= u32::MAX
}

/// The bytes of an index, or why it has none.
pub open spec fn encode_index_spec(index: Seq<(Seq<u8>, u64)>) -> Result<Seq<u8>, ErrorView> {
    if index.len() > u32::MAX {
        Err(ErrorView::InvalidInput("too many SSTable index entries"@))
    } else if !index_keys_fit(index) {
        Err(ErrorView::InvalidInput("key is too large to encode in SSTable index"@))
    } else {
        Ok(index_block(index))
    }
}

/// An index entry in front of what the rest of an index says.
pub open spec fn prepend_entry(
    entry: (Seq<u8>, u64),
    rest: Result<Seq<(Seq<u8>, u64)>, ErrorView>,
) -> Result<Seq<(Seq<u8>, u64)>, ErrorView> {
    match rest {
        Ok(more) => Ok(seq![entry] + more),
        Err(error) => Err(error),
    }
}

/// The `count` index entries that bytes begin with, when `previous` is the key
/// before them; or what is wrong with them.
pub open spec fn decode_index_entries(
    b: Seq<u8>,
    count: nat,
    previous: Option<Seq<u8>>,
) -> Result<Seq<(Seq<u8>, u64)>, ErrorView>
    decreases count,
{
    let key_len = le_value(b.subrange(0, 4)) as int;
    let key = b.subrange(4, 4 + key_len);
    let offset = le_value(b.subrange(4 + key_len, 12 + key_len)) as u64;
    if count == 0 {
        Ok(Seq::empty())
    } else if b.len() < 4 {
        Err(eof_error())
    } else if key_len == 0 {
        Err(ErrorView::CorruptSstable("index entry contains an empty key"@))
    } else if b.len() < 12 + key_len {
        Err(eof_error())
    } else if previous is Some && !lex_lt(previous->0, key) {
        Err(ErrorView::CorruptSstable("index keys are not strictly sorted"@))
    } else {
        prepend_entry(
            (key, offset),
            decode_index_entries(b.skip(12 + key_len), (count - 1) as nat, Some(key)),
        )
    }
}

/// The index that bytes begin with, or what is wrong with it.
pub open spec fn decode_index_spec(b: Seq<u8>) -> Result<Seq<(Seq<u8>, u64)>, ErrorView> {
    if b.len() < 4 {
        Err(eof_error())
    } else {
        decode_index_entries(b.skip(4), le_value(b.subrange(0, 4)), None)
    }
}

/// What reading an index returned, as contracts speak of it.
pub open spec fn index_outcome(result: Result<Vec<IndexEntry>, StorageError>) -> Result<
    Seq<(Seq<u8>, u64)>,
    ErrorView,
> {
    match result {
        Ok(index) => Ok(index_view(index@)),
        Err(error) => Err(error@),
    }
}

/// Appends the bytes of an index; nothing where it has none.
pub fn write_index_block(out: &mut Vec<u8>, index: &Vec<IndexEntry>) -> (done: Result<
    (),
    StorageError,
>)
    ensures
        match encode_index_spec(index_view(index@)) {
            Ok(bytes) => done is Ok && final(out)@ == old(out)@ + bytes,
            Err(error) => done is Err && done->Err_0@ == error && final(out)@ == old(out)@,
        },
{
    let ghost all = index_view(index@);
    if index.len() > u32::MAX as usize {
        return Err(invalid_input("too many SSTable index entries"));
    }
    let mut tested: usize = 0;
    while tested < index.len()
        invariant
            tested <= index.len(),
            all == index_view(index@),
            all.len() <= u32::MAX,
            out@ == old(out)@,
            forall|j: int| 0 <= j < tested ==> (#[trigger] all[j]).0.len() <= u32::MAX,
        decreases index.len() - tested,
    {
        assert(all[tested as int] == index@[tested as int]@);
        if index[tested].key.len() > u32::MAX as usize {
            return Err(invalid_input("key is too large to encode in SSTable index"));
        }
        tested += 1;
    }
    push_u32(out, index.len() as u32);
    let ghost base = out@;
    let mut i: usize = 0;
    assert(all.take(0) =~= Seq::empty());
    assert(base + index_entries_bytes(all.take(0)) =~= base);
    while i < index.len()
        invariant
            i <= index.len(),
            all == index_view(index@),
            all.len() <= u32::MAX,
            out@ == base + index_entries_bytes(all.take(i as int)),
            index_keys_fit(all),
        decreases index.len() - i,
    {
        assert(all[i as int] == index@[i as int]@);
        let ghost before = out@;
        push_u32(out, index[i].key.len() as u32);
        push_bytes(out, index[i].key.as_slice());
        push_u64(out, index[i].offset);
        assert(all.take(i + 1).drop_last() =~= all.take(i as int));
        assert(out@ =~= before + index_entry_bytes(all[i as int]));
        assert(out@ =~= base + index_entries_bytes(all.take(i + 1)));
        i += 1;
    }
    assert(all.take(i as int) =~= all);
    assert(out@ =~= old(out)@ + index_block(all));
    Ok(())
}

/// Putting an entry behind some and then a rest is putting all in front of it.
proof fn lemma_prepend_entry(
    front: Seq<(Seq<u8>, u64)>,
    entry: (Seq<u8>, u64),
    rest: Result<Seq<(Seq<u8>, u64)>, ErrorView>,
)
    ensures
        prepend_entries(front, prepend_entry(entry, rest)) == prepend_entries(
            front.push(entry),
            rest,
        ),
{
    if let Ok(more) = rest {
        assert(front + (seq![entry] + more) =~= front.push(entry) + more);
    }
}

/// Index entries in front of what the rest of an index says.
pub open spec fn prepend_entries(
    front: Seq<(Seq<u8>, u64)>,
    rest: Result<Seq<(Seq<u8>, u64)>, ErrorView>,
) -> Result<Seq<(Seq<u8>, u64)>, ErrorView> {
    match rest {
        Ok(more) => Ok(front + more),
        Err(error) => Err(error),
    }
}

/// Reads the index that begins at `start`.
pub fn read_index_block(b: &[u8], start: usize) -> (index: Result<Vec<IndexEntry>, StorageError>)
    requires
        start <= b.len(),
    ensures
        index_outcome(index) == decode_index_spec(b@.skip(start as int)),
        index is Ok ==> sorted(index_view(index->Ok_0@)) && index->Ok_0.len() <= u32::MAX
            && no_empty_key(index_view(index->Ok_0@)),
{
    let ghost block = b@.skip(start as int);
    if b.len() - start < 4 {
        return Err(eof());
    }
    let count = read_u32(b, start);
    assert(block.subrange(0, 4) =~= b@.subrange(start as int, start + 4));
    let mut index: Vec<IndexEntry> = Vec::new();
    let mut at: usize = start + 4;
    let mut left: u32 = count;
    assert(index_view(index@) =~= Seq::empty());
    assert(block.skip(4) =~= b@.skip(at as int));
    proof {
        if let Ok(all) = decode_index_spec(block) {
            assert(Seq::empty() + all =~= all);
        }
    }
    while left > 0
        invariant
            block == b@.skip(start as int),
            at <= b.len(),
            left <= count,
            index.len() == count - left,
            sorted(index_view(index@)),
            no_empty_key(index_view(index@)),
            decode_index_spec(block) == prepend_entries(
                index_view(index@),
                decode_index_entries(
                    b@.skip(at as int),
                    left as nat,
                    if index.len() == 0 {
                        None
                    } else {
                        Some(index_view(index@)[index.len() - 1].0)
                    },
                ),
            ),
        decreases left,
    {
        let ghost rest = b@.skip(at as int);
        if b.len() - at < 4 {
            return Err(eof());
        }
        let key_len = read_u32(b, at);
        assert(rest.subrange(0, 4) =~= b@.subrange(at as int, at + 4));
        if key_len == 0 {
            return Err(corrupt_sstable("index entry contains an empty key"));
        }
        if ((b.len() - at) as u64) < 12 + key_len as u64 {
            return Err(eof());
        }
        let key_end: usize = at + 4 + key_len as usize;
        let key = copy_range(b, at + 4, key_end);
        assert(rest.subrange(4, 4 + key_len as int) =~= key@);
        let offset = read_u64(b, key_end);
        assert(rest.subrange(4 + key_len as int, 12 + key_len as int) =~= b@.subrange(
            key_end as int,
            key_end + 8,
        ));
        if index.len() > 0 {
            match compare(index[index.len() - 1].key.as_slice(), key.as_slice()) {
                Order::Less => {},
                _ => {
                    return Err(corrupt_sstable("index keys are not strictly sorted"));
                },
            }
        }
        let ghost before = index_view(index@);
        let ghost entry = (key@, offset);
        proof {
            let next = rest.skip(12 + key_len as int);
            assert(next =~= b@.skip(key_end + 8));
            lemma_prepend_entry(
                before,
                entry,
                decode_index_entries(next, (left - 1) as nat, Some(key@)),
            );
            lemma_sorted_push(before, entry);
        }
        index.push(IndexEntry { key, offset });
        assert(index_view(index@) =~= before.push(entry));
        at = key_end + 8;
        left -= 1;
    }
    assert(index_view(index@) + Seq::empty() =~= index_view(index@));
    Ok(index)
}

/// Sorted entries with a later one behind them are sorted.
proof fn lemma_sorted_push(front: Seq<(Seq<u8>, u64)>, entry: (Seq<u8>, u64))
    requires
        sorted(front),
        front.len() > 0 ==> lex_lt(front[front.len() - 1].0, entry.0),
    ensures
        sorted(front.push(entry)),
{
    let all = front.push(entry);
    assert forall|i: int, j: int| 0 <= i < j < all.len() implies lex_lt(
        #[trigger] all[i].0,
        #[trigger] all[j].0,
    ) by {
        if j == front.len() {
            if i < front.len() - 1 {
                assert(lex_lt(front[i].0, front[front.len() - 1].0));
                crate::bytes::lemma_lex_transitive(
                    front[i].0,
                    front[front.len() - 1].0,
                    entry.0,
                );
            }
        } else {
            assert(lex_lt(front[i].0, front[j].0));
        }
    }
}

/// The bytes of two runs of index entries stand one behind the other.
proof fn lemma_index_entries_concat(a: Seq<(Seq<u8>, u64)>, b: Seq<(Seq<u8>, u64)>)
    ensures
        index_entries_bytes(a + b) == index_entries_bytes(a) + index_entries_bytes(b),
    decreases b.len(),
{
    if b.len() == 0 {
        assert(a + b =~= a);
        assert(index_entries_bytes(a) + index_entries_bytes(b) =~= index_entries_bytes(a));
    } else {
        assert((a + b).drop_last() =~= a + b.drop_last());
        lemma_index_entries_concat(a, b.drop_last());
        assert(index_entries_bytes(a + b) =~= index_entries_bytes(a) + index_entries_bytes(b));
    }
}

/// Sorted index entries are read back from their bytes, whatever stands behind.
proof fn lemma_index_entries_round_trip(
    index: Seq<(Seq<u8>, u64)>,
    rest: Seq<u8>,
    previous: Option<Seq<u8>>,
)
    requires
        sorted(index),
        index_keys_fit(index),
        forall|i: int| 0 <= i < index.len() ==> (#[trigger] index[i]).0.len() > 0,
        previous is Some && index.len() > 0 ==> lex_lt(previous->0, index[0].0),
    ensures
        decode_index_entries(index_entries_bytes(index) + rest, index.len(), previous) == Ok::<
            Seq<(Seq<u8>, u64)>,
            ErrorView,
        >(index),
    decreases index.len(),
{
    if index.len() == 0 {
        assert(index =~= Seq::empty());
    } else {
        let first = index[0];
        let others = index.drop_first();
        let b = index_entries_bytes(index) + rest;
        let key_field = le_bytes(first.0.len(), 4);
        let offset_field = le_bytes(first.1 as nat, 8);
        assert(index =~= seq![first] + others);
        lemma_index_entries_concat(seq![first], others);
        reveal_with_fuel(index_entries_bytes, 2);
        assert(index_entries_bytes(seq![first]) =~= index_entry_bytes(first));
        lemma_le_len(first.0.len(), 4);
        lemma_le_len(first.1 as nat, 8);
        lemma_byte_range();
        lemma_le_value_of_bytes(first.0.len(), 4);
        lemma_le_value_of_bytes(first.1 as nat, 8);
        let n = first.0.len() as int;
        assert(b.subrange(0, 4) =~= key_field);
        assert(b.subrange(4, 4 + n) =~= first.0);
        assert(b.subrange(4 + n, 12 + n) =~= offset_field);
        assert(b.skip(12 + n) =~= index_entries_bytes(others) + rest);
        assert forall|i: int| 0 <= i < others.len() implies (#[trigger] others[i]).0.len() > 0
            && others[i].0.len() <= u32::MAX by {
            assert(others[i] == index[i + 1]);
        }
        assert forall|i: int, j: int| 0 <= i < j < others.len() implies lex_lt(
            #[trigger] others[i].0,
            #[trigger] others[j].0,
        ) by {
            assert(others[i] == index[i + 1]);
            assert(others[j] == index[j + 1]);
        }
        if others.len() > 0 {
            assert(others[0] == index[1]);
            assert(lex_lt(index[0].0, index[1].0));
        }
        lemma_index_entries_round_trip(others, rest, Some(first.0));
    }
}

/// An index of sorted keys is read back from its bytes, whatever stands behind.
pub proof fn law_index_round_trip(index: Seq<(Seq<u8>, u64)>, rest: Seq<u8>)
    requires
        sorted(index),
        forall|i: int| 0 <= i < index.len() ==> (#[trigger] index[i]).0.len() > 0,
        encode_index_spec(index) is Ok,
    ensures
        decode_index_spec(index_block(index) + rest) == Ok::<Seq<(Seq<u8>, u64)>, ErrorView>(
            index,
        ),
{
    let b = index_block(index) + rest;
    lemma_le_len(index.len(), 4);
    lemma_byte_range();
    lemma_le_value_of_bytes(index.len(), 4);
    assert(b.subrange(0, 4) =~= le_bytes(index.len(), 4));
    assert(b.skip(4) =~= index_entries_bytes(index) + rest);
    lemma_index_entries_round_trip(index, rest, None);
}

// The filter block.

/// The bytes of a filter.
pub open spec fn filter_block(filter: FilterView) -> Seq<u8> {
    le_bytes(filter.bit_len as nat, 8) + le_bytes(filter.hash_count as nat, 4) + le_bytes(
        filter.bits.len(),
        4,
    ) + filter.bits
}

/// The bytes of a filter, or why it has none.
pub open spec fn encode_filter_spec(filter: FilterView) -> Result<Seq<u8>, ErrorView> {
    if filter.bits.len() > u32::MAX {
        Err(ErrorView::InvalidInput("Bloom filter is too large to encode"@))
    } else {
        Ok(filter_block(filter))
    }
}

/// The filter that bytes begin with, or what is wrong with it.
pub open spec fn decode_filter_spec(b: Seq<u8>) -> Result<FilterView, ErrorView> {
    let byte_len = le_value(b.subrange(12, 16)) as int;
    let filter = FilterView {
        bit_len: le_value(b.subrange(0, 8)) as u64,
        hash_count: le_value(b.subrange(8, 12)) as u32,
        bits: b.subrange(16, 16 + byte_len),
    };
    if b.len() < 16 || b.len() < 16 + byte_len {
        Err(eof_error())
    } else if !filter.wf() {
        Err(ErrorView::CorruptSstable("invalid Bloom filter block"@))
    } else {
        Ok(filter)
    }
}

/// Appends the bytes of a filter; nothing where it has none.
pub fn write_bloom_filter_block(out: &mut Vec<u8>, filter: &BloomFilter) -> (done: Result<
    (),
    StorageError,
>)
    ensures
        match encode_filter_spec(filter@) {
            Ok(bytes) => done is Ok && final(out)@ == old(out)@ + bytes,
            Err(error) => done is Err && done->Err_0@ == error && final(out)@ == old(out)@,
        },
{
    if filter.bits().len() > u32::MAX as usize {
        return Err(invalid_input("Bloom filter is too large to encode"));
    }
    push_u64(out, filter.bit_len());
    push_u32(out, filter.hash_count());
    push_u32(out, filter.bits().len() as u32);
    push_bytes(out, filter.bits());
    assert(out@ =~= old(out)@ + filter_block(filter@));
    Ok(())
}

/// Reads the filter that begins at `start`.
pub fn read_bloom_filter_block(b: &[u8], start: usize) -> (filter: Result<
    BloomFilter,
    StorageError,
>)
    requires
        start <= b.len(),
    ensures
        outcome(filter) == decode_filter_spec(b@.skip(start as int)),
        filter is Ok ==> filter->Ok_0.wf(),
{
    let ghost block = b@.skip(start as int);
    if b.len() - start < 16 {
        return Err(eof());
    }
    let bit_len = read_u64(b, start);
    let hash_count = read_u32(b, start + 8);
    let byte_len = read_u32(b, start + 12);
    assert(block.subrange(0, 8) =~= b@.subrange(start as int, start + 8));
    assert(block.subrange(8, 12) =~= b@.subrange(start + 8, start + 12));
    assert(block.subrange(12, 16) =~= b@.subrange(start + 12, start + 16));
    if ((b.len() - start) as u64) < 16 + byte_len as u64 {
        return Err(eof());
    }
    let bits = copy_range(b, start + 16, start + 16 + byte_len as usize);
    assert(block.subrange(16, 16 + byte_len as int) =~= bits@);
    match BloomFilter::from_parts(bit_len, hash_count, bits) {
        Some(filter) => Ok(filter),
        None => Err(corrupt_sstable("invalid Bloom filter block")),
    }
}

/// A filter is read back from its bytes, whatever stands behind them.
pub proof fn law_filter_round_trip(filter: FilterView, rest: Seq<u8>)
    requires
        filter.wf(),
        encode_filter_spec(filter) is Ok,
    ensures
        decode_filter_spec(filter_block(filter) + rest) == Ok::<FilterView, ErrorView>(filter),
{
    let b = filter_block(filter) + rest;
    lemma_le_len(filter.bit_len as nat, 8);
    lemma_le_len(filter.hash_count as nat, 4);
    lemma_le_len(filter.bits.len(), 4);
    lemma_byte_range();
    lemma_le_value_of_bytes(filter.bit_len as nat, 8);
    lemma_le_value_of_bytes(filter.hash_count as nat, 4);
    lemma_le_value_of_bytes(filter.bits.len(), 4);
    assert(b.subrange(0, 8) =~= le_bytes(filter.bit_len as nat, 8));
    assert(b.subrange(8, 12) =~= le_bytes(filter.hash_count as nat, 4));
    assert(b.subrange(12, 16) =~= le_bytes(filter.bits.len(), 4));
    assert(b.subrange(16, 16 + filter.bits.len() as int) =~= filter.bits);
}

// The footer.

/// What a footer says.
#[derive(Clone, Copy, Debug, PartialEq, Eq, Structural)]
pub struct SstableFooter {
    pub index_offset: u64,
    pub bloom_filter_offset: Option<u64>,
    pub footer_len: u64,
}

impl View for SstableFooter {
    type V = SstableFooter;

    open spec fn view(&self) -> SstableFooter {
        *self
    }
}

/// The number in eight bytes that end `back` bytes before the end of a file.
pub open spec fn number_before_end(file: Seq<u8>, back: int) -> nat {
    le_value(file.subrange(file.len() - back - 8, file.len() - back))
}

/// The footer of a file, or what is wrong with it.
pub open spec fn footer_spec(path: Seq<char>, file: Seq<u8>) -> Result<SstableFooter, ErrorView> {
    let magic = number_before_end(file, 0);
    if file.len() < FOOTER_V1_LEN {
        Err(ErrorView::CorruptSstable(path + " is too small to contain a footer"@))
    } else if magic == MAGIC_V2 {
        if file.len() < FOOTER_V2_LEN {
            Err(ErrorView::CorruptSstable(path + " is too small to contain a v2 footer"@))
        } else {
            Ok(
                SstableFooter {
                    index_offset: number_before_end(file, 16) as u64,
                    bloom_filter_offset: Some(number_before_end(file, 8) as u64),
                    footer_len: FOOTER_V2_LEN,
                },
            )
        }
    } else if magic == MAGIC_V1 {
        Ok(
            SstableFooter {
                index_offset: number_before_end(file, 8) as u64,
                bloom_filter_offset: None,
                footer_len: FOOTER_V1_LEN,
            },
        )
    } else {
        Err(ErrorView::CorruptSstable(path + " has an invalid magic number"@))
    }
}

/// An error about a table file: its path, and what is wrong.
pub fn corrupt_file(path: &str, what: &str) -> (error: StorageError)
    ensures
        error@ == ErrorView::CorruptSstable(path@ + what@),
{
    let mut message = String::from_str(path);
    message.append(what);
    StorageError::CorruptSstable(message)
}

/// Reads the footer of a file.
pub fn read_footer(path: &str, file: &[u8]) -> (footer: Result<SstableFooter, StorageError>)
    ensures
        outcome(footer) == footer_spec(path@, file@),
{
    let n = file.len();
    if (n as u64) < FOOTER_V1_LEN {
        return Err(corrupt_file(path, " is too small to contain a footer"));
    }
    let magic = read_u64(file, n - 8);
    if magic == MAGIC_V2 {
        if (n as u64) < FOOTER_V2_LEN {
            return Err(corrupt_file(path, " is too small to contain a v2 footer"));
        }
        Ok(
            SstableFooter {
                index_offset: read_u64(file, n - 24),
                bloom_filter_offset: Some(read_u64(file, n - 16)),
                footer_len: FOOTER_V2_LEN,
            },
        )
    } else if magic == MAGIC_V1 {
        Ok(
            SstableFooter {
                index_offset: read_u64(file, n - 16),
                bloom_filter_offset: None,
                footer_len: FOOTER_V1_LEN,
            },
        )
    } else {
        Err(corrupt_file(path, " has an invalid magic number"))
    }
}

/// The bytes of a footer of the second version.
pub open spec fn footer_bytes(index_offset: nat, filter_offset: nat) -> Seq<u8> {
    le_bytes(index_offset, 8) + le_bytes(filter_offset, 8) + le_bytes(MAGIC_V2 as nat, 8)
}

/// The footer of a file is read back from its bytes, whatever stands before.
pub proof fn law_footer_round_trip(
    path: Seq<char>,
    before: Seq<u8>,
    index_offset: nat,
    filter_offset: nat,
)
    requires
        index_offset <= u64::MAX,
        filter_offset <= u64::MAX,
    ensures
        footer_bytes(index_offset, filter_offset).len() == FOOTER_V2_LEN,
        footer_spec(path, before + footer_bytes(index_offset, filter_offset)) == Ok::<
            SstableFooter,
            ErrorView,
        >(
            SstableFooter {
                index_offset: index_offset as u64,
                bloom_filter_offset: Some(filter_offset as u64),
                footer_len: FOOTER_V2_LEN,
            },
        ),
{
    let file = before + footer_bytes(index_offset, filter_offset);
    lemma_le_len(index_offset, 8);
    lemma_le_len(filter_offset, 8);
    lemma_le_len(MAGIC_V2 as nat, 8);
    lemma_byte_range();
    lemma_le_value_of_bytes(index_offset, 8);
    lemma_le_value_of_bytes(filter_offset, 8);
    lemma_le_value_of_bytes(MAGIC_V2 as nat, 8);
    let n = file.len() as int;
    assert(file.subrange(n - 24, n - 16) =~= le_bytes(index_offset, 8));
    assert(file.subrange(n - 16, n - 8) =~= le_bytes(filter_offset, 8));
    assert(file.subrange(n - 8, n) =~= le_bytes(MAGIC_V2 as nat, 8));
}

// What the parts of a table file are, byte by byte.

/// Whether bytes are those of a row: the lengths of the key and of the value; a byte for
/// the kind, one for a value and two for a tombstone; the key, which is not empty; and
/// the value, which a tombstone does not have.
pub open spec fn is_data_record(b: Seq<u8>, row: (Seq<u8>, Option<Seq<u8>>)) -> bool {
    let k = row.0.len() as int;
    let v = match row.1 {
        Some(value) => value.len() as int,
        None => 0int,
    };
    &&& b.len() == 9 + k + v
    &&& holds_u32(b, 0, k as nat)
    &&& holds_u32(b, 4, v as nat)
    &&& b[8] == if row.1 is Some {
        1u8
    } else {
        2u8
    }
    &&& b.subrange(9, 9 + k) == row.0
    &&& row.1 matches Some(value) ==> b.subrange(9 + k, 9 + k + v) == value
    &&& k > 0
}

/// A row whose key is not empty, and whose key and value are no longer than four bytes
/// count, has bytes: those of its lengths, kind, key and value.
pub proof fn law_row_has_bytes(row: (Seq<u8>, Option<Seq<u8>>))
    requires
        0 < row.0.len() <= 0xffff_ffff,
        row.1 matches Some(value) ==> value.len() <= 0xffff_ffff,
    ensures
        encode_data_spec(row) is Ok,
        encode_data_spec(row) == Ok::<Seq<u8>, ErrorView>(data_record(row)),
        is_data_record(data_record(row), row),
{
    let value = value_bytes(row.1);
    let b = data_record(row);
    let k = row.0.len() as int;
    lemma_le_len(row.0.len(), 4);
    lemma_le_len(value.len(), 4);
    law_bytes_of_a_number(row.0.len());
    law_bytes_of_a_number(value.len());
    let key_field = le_bytes(row.0.len(), 4);
    let value_field = le_bytes(value.len(), 4);
    assert forall|i: int| 0 <= i < 4 implies b[i] == #[trigger] key_field[i] by {
    }
    assert forall|i: int| 0 <= i < 4 implies b[i + 4] == #[trigger] value_field[i] by {
    }
    assert(b[8] == kind_of(row.1));
    assert(b.subrange(9, 9 + k) =~= row.0);
    assert(b.subrange(9 + k, 9 + k + value.len() as int) =~= value);
}

/// The rows without bytes, and the reason of each.
pub proof fn law_rows_without_bytes(row: (Seq<u8>, Option<Seq<u8>>))
    ensures
        row.0.len() == 0 ==> encode_data_spec(row) == Err::<Seq<u8>, ErrorView>(
            ErrorView::InvalidInput("SSTable keys must not be empty"@),
        ),
        row.0.len() > 0xffff_ffff ==> encode_data_spec(row) == Err::<Seq<u8>, ErrorView>(
            ErrorView::InvalidInput("key is too large to encode in SSTable"@),
        ),
        0 < row.0.len() <= 0xffff_ffff && row.1 is Some && row.1->0.len() > 0xffff_ffff
            ==> encode_data_spec(row) == Err::<Seq<u8>, ErrorView>(
            ErrorView::InvalidInput("value is too large to encode in SSTable"@),
        ),
{
}

/// Bytes say a row exactly if they begin with the bytes of that row.
pub proof fn law_bytes_say_their_row(b: Seq<u8>, row: (Seq<u8>, Option<Seq<u8>>), n: int)
    requires
        n == 9 + row.0.len() + (match row.1 {
            Some(value) => value.len() as int,
            None => 0int,
        }),
    ensures
        decode_data_spec(b) == Ok::<(Seq<u8>, Option<Seq<u8>>), ErrorView>(row) <==> n <= b.len()
            && is_data_record(b.take(n), row),
{
    if b.len() >= 9 {
        law_number_in_four_bytes(b, 0);
        law_number_in_four_bytes(b, 4);
        let k = le_value(b.subrange(0, 4)) as int;
        let v = le_value(b.subrange(4, 8)) as int;
        if n <= b.len() {
            let part = b.take(n);
            assert(part[0] == b[0] && part[1] == b[1] && part[2] == b[2] && part[3] == b[3]);
            assert(part[4] == b[4] && part[5] == b[5] && part[6] == b[6] && part[7] == b[7]);
            assert(part[8] == b[8]);
            if n == 9 + k + v {
                assert(part.subrange(9, 9 + k) =~= b.subrange(9, 9 + k));
                assert(part.subrange(9 + k, 9 + k + v) =~= b.subrange(9 + k, 9 + k + v));
            }
        }
        if b.len() >= 9 + k + v {
            assert(b.subrange(9, 9 + k).len() == k);
            assert(b.subrange(9 + k, 9 + k + v).len() == v);
        }
    }
}

/// What is wrong with bytes that say no row, given the lengths that they state: there
/// are too few of them, the key is empty, the kind stands for nothing, or a tombstone
/// has a value.
pub proof fn law_bytes_that_say_no_row(b: Seq<u8>, k: nat, v: nat)
    requires
        b.len() >= 9 ==> holds_u32(b, 0, k) && holds_u32(b, 4, v),
    ensures
        b.len() < 9 ==> decode_data_spec(b) == Err::<(Seq<u8>, Option<Seq<u8>>), ErrorView>(
            eof_error(),
        ),
        b.len() >= 9 && k == 0 ==> decode_data_spec(b) == Err::<
            (Seq<u8>, Option<Seq<u8>>),
            ErrorView,
        >(ErrorView::CorruptSstable("data record contains an empty key"@)),
        9 <= b.len() < 9 + k + v && k > 0 ==> decode_data_spec(b) == Err::<
            (Seq<u8>, Option<Seq<u8>>),
            ErrorView,
        >(eof_error()),
        b.len() >= 9 + k + v && k > 0 && b[8] == 2 && v > 0 ==> decode_data_spec(b) == Err::<
            (Seq<u8>, Option<Seq<u8>>),
            ErrorView,
        >(ErrorView::CorruptSstable("tombstone data record contains a value"@)),
        b.len() >= 9 + k + v && k > 0 && b[8] != 1 && b[8] != 2 ==> decode_data_spec(b) == Err::<
            (Seq<u8>, Option<Seq<u8>>),
            ErrorView,
        >(ErrorView::CorruptSstable("unknown SSTable record kind "@ + decimal(b[8] as nat))),
{
    if b.len() >= 9 {
        law_number_in_four_bytes(b, 0);
        law_number_in_four_bytes(b, 4);
    }
}

/// A row takes nine bytes and those of its key and value, as the first eight state.
pub proof fn law_span_of_a_row(header: Seq<u8>, k: nat, v: nat)
    requires
        header.len() >= 9,
        holds_u32(header, 0, k),
        holds_u32(header, 4, v),
    ensures
        record_span_spec(header) == 9 + k + v,
{
    law_number_in_four_bytes(header, 0);
    law_number_in_four_bytes(header, 4);
}

/// An index of at most as many entries as four bytes count, and with keys no longer than
/// that, has bytes; one with more entries, or with a longer key, has none, for that
/// reason.
pub proof fn law_index_has_bytes(index: Seq<(Seq<u8>, u64)>)
    ensures
        index.len() <= 0xffff_ffff && (forall|i: int|
            0 <= i < index.len() ==> (#[trigger] index[i]).0.len() <= 0xffff_ffff)
            ==> encode_index_spec(index) == Ok::<Seq<u8>, ErrorView>(index_block(index)),
        index.len() > 0xffff_ffff ==> encode_index_spec(index) == Err::<Seq<u8>, ErrorView>(
            ErrorView::InvalidInput("too many SSTable index entries"@),
        ),
        index.len() <= 0xffff_ffff && (exists|i: int|
            0 <= i < index.len() && (#[trigger] index[i]).0.len() > 0xffff_ffff)
            ==> encode_index_spec(index) == Err::<Seq<u8>, ErrorView>(
            ErrorView::InvalidInput("key is too large to encode in SSTable index"@),
        ),
{
}

/// The bytes of an index are the number of its entries and then the entries; each adds
/// the length of its key, the key, and where its row begins.
pub proof fn law_bytes_of_an_index(index: Seq<(Seq<u8>, u64)>, entry: (Seq<u8>, u64))
    requires
        index.len() < 0xffff_ffff,
        entry.0.len() <= 0xffff_ffff,
    ensures
        index_block(Seq::empty()).len() == 4,
        holds_u32(index_block(Seq::empty()), 0, 0),
        holds_u32(index_block(index.push(entry)), 0, index.len() + 1),
        ({
            let before = index_block(index).skip(4);
            let after = index_block(index.push(entry)).skip(4);
            let n = before.len() as int;
            let k = entry.0.len() as int;
            &&& after.len() == n + 12 + k
            &&& after.take(n) == before
            &&& holds_u32(after, n, entry.0.len())
            &&& after.subrange(n + 4, n + 4 + k) == entry.0
            &&& holds_u64(after, n + 4 + k, entry.1 as nat)
        }),
{
    let more = index.push(entry);
    let before = index_block(index).skip(4);
    let after = index_block(more).skip(4);
    let n = before.len() as int;
    let k = entry.0.len() as int;
    lemma_le_len(index.len(), 4);
    lemma_le_len(more.len(), 4);
    lemma_le_len(0, 4);
    lemma_le_len(entry.0.len(), 4);
    lemma_le_len(entry.1 as nat, 8);
    law_bytes_of_a_number(0);
    law_bytes_of_a_number(more.len());
    law_bytes_of_a_number(entry.0.len());
    law_bytes_of_a_number(entry.1 as nat);
    let none = Seq::<(Seq<u8>, u64)>::empty();
    assert(index_block(none) =~= le_bytes(0, 4));
    assert(more.drop_last() =~= index);
    assert(before =~= index_entries_bytes(index));
    assert(after =~= index_entries_bytes(index) + index_entry_bytes(entry));
    let count_field = le_bytes(more.len(), 4);
    let key_field = le_bytes(entry.0.len(), 4);
    let offset_field = le_bytes(entry.1 as nat, 8);
    assert forall|i: int| 0 <= i < 4 implies index_block(more)[i] == #[trigger] count_field[i] by {
    }
    assert forall|i: int| 0 <= i < 4 implies after[n + i] == #[trigger] key_field[i] by {
    }
    assert forall|i: int| 0 <= i < 8 implies after[n + 4 + k + i] == #[trigger] offset_field[i] by {
    }
    assert(after.take(n) =~= before);
    assert(after.subrange(n + 4, n + 4 + k) =~= entry.0);
    assert(after[n] == key_field[0] && after[n + 1] == key_field[1] && after[n + 2] == key_field[2]
        && after[n + 3] == key_field[3]);
    let at = n + 4 + k;
    assert(after[at] == offset_field[0] && after[at + 1] == offset_field[1] && after[at + 2]
        == offset_field[2] && after[at + 3] == offset_field[3] && after[at + 4] == offset_field[4]
        && after[at + 5] == offset_field[5] && after[at + 6] == offset_field[6] && after[at + 7]
        == offset_field[7]);
}

/// How an index is read, entry by entry, given the length that the first entry states:
/// bytes that are too few for an entry end too early; an empty key is refused, and so is
/// a key that does not come behind the one before it; otherwise the entry stands in
/// front of what the rest of the bytes gives.
pub proof fn law_index_is_read_entry_by_entry(
    b: Seq<u8>,
    count: nat,
    previous: Option<Seq<u8>>,
    k: nat,
    offset: nat,
)
    requires
        b.len() >= 4 ==> holds_u32(b, 0, k),
        b.len() >= 12 + k ==> holds_u64(b, 4 + k as int, offset),
    ensures
        ({
            let key = b.subrange(4, 4 + k as int);
            let rest = decode_index_entries(
                b.skip(12 + k as int),
                (count - 1) as nat,
                Some(key),
            );
            let read = decode_index_entries(b, count, previous);
            let out_of_order = previous is Some && !lex_lt(previous->0, key);
            &&& count == 0 ==> read == Ok::<Seq<(Seq<u8>, u64)>, ErrorView>(Seq::empty())
            &&& count > 0 && b.len() < 4 ==> read == Err::<Seq<(Seq<u8>, u64)>, ErrorView>(
                eof_error(),
            )
            &&& count > 0 && b.len() >= 4 && k == 0 ==> read == Err::<
                Seq<(Seq<u8>, u64)>,
                ErrorView,
            >(ErrorView::CorruptSstable("index entry contains an empty key"@))
            &&& count > 0 && 4 <= b.len() < 12 + k && k > 0 ==> read == Err::<
                Seq<(Seq<u8>, u64)>,
                ErrorView,
            >(eof_error())
            &&& count > 0 && b.len() >= 12 + k && k > 0 && out_of_order ==> read == Err::<
                Seq<(Seq<u8>, u64)>,
                ErrorView,
            >(ErrorView::CorruptSstable("index keys are not strictly sorted"@))
            &&& count > 0 && b.len() >= 12 + k && k > 0 && !out_of_order ==> match rest {
                Ok(more) => read == Ok::<Seq<(Seq<u8>, u64)>, ErrorView>(
                    seq![(key, offset as u64)] + more,
                ),
                Err(error) => read == Err::<Seq<(Seq<u8>, u64)>, ErrorView>(error),
            }
        }),
{
    if b.len() >= 4 {
        law_number_in_four_bytes(b, 0);
        if b.len() >= 12 + k {
            law_number_in_eight_bytes(b, 4 + k as int);
            assert(4 + k as int + 8 == 12 + k as int);
        }
    }
}

/// An index is read from the number of its entries on, and from the entries behind.
pub proof fn law_index_is_read_from_its_count(b: Seq<u8>, count: nat)
    requires
        b.len() >= 4 ==> holds_u32(b, 0, count),
    ensures
        b.len() < 4 ==> decode_index_spec(b) == Err::<Seq<(Seq<u8>, u64)>, ErrorView>(eof_error()),
        b.len() >= 4 ==> decode_index_spec(b) == decode_index_entries(b.skip(4), count, None),
{
    if b.len() >= 4 {
        law_number_in_four_bytes(b, 0);
    }
}

/// Whether bytes are those of a filter: the number of bits, of hashes and of bytes, and
/// the bytes.
pub open spec fn is_filter_block(b: Seq<u8>, filter: FilterView) -> bool {
    &&& b.len() == 16 + filter.bits.len()
    &&& holds_u64(b, 0, filter.bit_len as nat)
    &&& holds_u32(b, 8, filter.hash_count as nat)
    &&& holds_u32(b, 12, filter.bits.len())
    &&& b.subrange(16, 16 + filter.bits.len() as int) == filter.bits
}

/// A filter of at most as many bytes as four bytes count has bytes; a longer one has
/// none, for that reason.
pub proof fn law_filter_has_bytes(filter: FilterView)
    ensures
        filter.bits.len() <= 0xffff_ffff ==> encode_filter_spec(filter) == Ok::<
            Seq<u8>,
            ErrorView,
        >(filter_block(filter)) && is_filter_block(filter_block(filter), filter),
        filter.bits.len() > 0xffff_ffff ==> encode_filter_spec(filter) == Err::<
            Seq<u8>,
            ErrorView,
        >(ErrorView::InvalidInput("Bloom filter is too large to encode"@)),
{
    if filter.bits.len() <= 0xffff_ffff {
        let b = filter_block(filter);
        lemma_le_len(filter.bit_len as nat, 8);
        lemma_le_len(filter.hash_count as nat, 4);
        lemma_le_len(filter.bits.len(), 4);
        law_bytes_of_a_number(filter.bit_len as nat);
        law_bytes_of_a_number(filter.hash_count as nat);
        law_bytes_of_a_number(filter.bits.len());
        let x = le_bytes(filter.bit_len as nat, 8);
        let y = le_bytes(filter.hash_count as nat, 4);
        let z = le_bytes(filter.bits.len(), 4);
        assert forall|i: int| 0 <= i < 8 implies b[i] == #[trigger] x[i] by {
    }
        assert forall|i: int| 0 <= i < 4 implies b[i + 8] == #[trigger] y[i] by {
    }
        assert forall|i: int| 0 <= i < 4 implies b[i + 12] == #[trigger] z[i] by {
    }
        assert(b.subrange(16, 16 + filter.bits.len() as int) =~= filter.bits);
    }
}

/// Bytes say a filter exactly if they begin with the bytes of that filter, and its parts
/// fit together.
pub proof fn law_bytes_say_their_filter(b: Seq<u8>, filter: FilterView)
    ensures
        decode_filter_spec(b) == Ok::<FilterView, ErrorView>(filter) <==> 16 + filter.bits.len()
            <= b.len() && is_filter_block(b.take(16 + filter.bits.len() as int), filter)
            && filter.wf(),
{
    if b.len() >= 16 {
        law_number_in_eight_bytes(b, 0);
        law_number_in_four_bytes(b, 8);
        law_number_in_four_bytes(b, 12);
        lemma_le_value_bound(b.subrange(0, 8));
        lemma_le_value_bound(b.subrange(8, 12));
        lemma_byte_range();
        let n = 16 + filter.bits.len() as int;
        let stated = le_value(b.subrange(12, 16)) as int;
        if n <= b.len() {
            let part = b.take(n);
            assert forall|i: int| 0 <= i < 16 implies part[i] == #[trigger] b[i] by {
    }
            assert(part.subrange(16, n) =~= b.subrange(16, n));
        }
        if b.len() >= 16 + stated {
            assert(b.subrange(16, 16 + stated).len() == stated);
        }
    }
}

/// What is wrong with bytes that say no filter, given how many bytes they state: there
/// are too few of them, or the parts do not fit together.
pub proof fn law_bytes_that_say_no_filter(b: Seq<u8>, bit_len: u64, hash_count: u32, n: nat)
    requires
        b.len() >= 16 ==> holds_u64(b, 0, bit_len as nat) && holds_u32(b, 8, hash_count as nat)
            && holds_u32(b, 12, n),
    ensures
        b.len() < 16 || b.len() < 16 + n ==> decode_filter_spec(b) == Err::<FilterView, ErrorView>(
            eof_error(),
        ),
        b.len() >= 16 + n && !(bit_len > 0 && hash_count > 0 && 8 * (n - 1) < bit_len <= 8 * n)
            ==> decode_filter_spec(b) == Err::<FilterView, ErrorView>(
            ErrorView::CorruptSstable("invalid Bloom filter block"@),
        ),
{
    if b.len() >= 16 {
        law_number_in_eight_bytes(b, 0);
        law_number_in_four_bytes(b, 8);
        law_number_in_four_bytes(b, 12);
        if b.len() >= 16 + n {
            assert(b.subrange(16, 16 + n as int).len() == n);
        }
    }
}

/// The footer of a file, given the numbers that stand at its end. By the last a file of
/// the second version is told from one of the first. In the second the number before it
/// is the place of the filter, and the one before that the place of the index; in the
/// first the number before it is the place of the index, and there is no filter.
pub proof fn law_footer(path: Seq<char>, file: Seq<u8>, x: nat, y: nat, magic: nat)
    requires
        file.len() >= 8 ==> holds_u64(file, file.len() - 8, magic),
        file.len() >= 16 ==> holds_u64(file, file.len() - 16, y),
        file.len() >= 24 ==> holds_u64(file, file.len() - 24, x),
    ensures
        file.len() < 16 ==> footer_spec(path, file) == Err::<SstableFooter, ErrorView>(
            ErrorView::CorruptSstable(path + " is too small to contain a footer"@),
        ),
        16 <= file.len() < 24 && magic == 0x4b56_5353_5442_4c32 ==> footer_spec(path, file)
            == Err::<SstableFooter, ErrorView>(
            ErrorView::CorruptSstable(path + " is too small to contain a v2 footer"@),
        ),
        file.len() >= 24 && magic == 0x4b56_5353_5442_4c32 ==> footer_spec(path, file) == Ok::<
            SstableFooter,
            ErrorView,
        >(
            SstableFooter {
                index_offset: x as u64,
                bloom_filter_offset: Some(y as u64),
                footer_len: 24,
            },
        ),
        file.len() >= 16 && magic == 0x4b56_5353_5441_424c ==> footer_spec(path, file) == Ok::<
            SstableFooter,
            ErrorView,
        >(
            SstableFooter {
                index_offset: y as u64,
                bloom_filter_offset: None,
                footer_len: 16,
            },
        ),
        file.len() >= 16 && magic != 0x4b56_5353_5442_4c32 && magic != 0x4b56_5353_5441_424c
            ==> footer_spec(path, file) == Err::<SstableFooter, ErrorView>(
            ErrorView::CorruptSstable(path + " has an invalid magic number"@),
        ),
{
    let n = file.len() as int;
    if n >= 16 {
        law_number_in_eight_bytes(file, n - 8);
        law_number_in_eight_bytes(file, n - 16);
        if n >= 24 {
            law_number_in_eight_bytes(file, n - 24);
        }
    }
}

/// The bytes of a footer: the place of the index, the place of the filter, and the number
/// that files of the second version end in.
pub proof fn law_bytes_of_a_footer(index_offset: nat, filter_offset: nat)
    requires
        index_offset <= 0xffff_ffff_ffff_ffff,
        filter_offset <= 0xffff_ffff_ffff_ffff,
    ensures
        footer_bytes(index_offset, filter_offset).len() == 24,
        holds_u64(footer_bytes(index_offset, filter_offset), 0, index_offset),
        holds_u64(footer_bytes(index_offset, filter_offset), 8, filter_offset),
        holds_u64(footer_bytes(index_offset, filter_offset), 16, 0x4b56_5353_5442_4c32),
{
    let b = footer_bytes(index_offset, filter_offset);
    let x = le_bytes(index_offset, 8);
    let y = le_bytes(filter_offset, 8);
    let z = le_bytes(MAGIC_V2 as nat, 8);
    law_bytes_of_a_number(index_offset);
    law_bytes_of_a_number(filter_offset);
    law_bytes_of_a_number(MAGIC_V2 as nat);
    assert forall|i: int| 0 <= i < 8 implies b[i] == #[trigger] x[i] by {
    }
    assert forall|i: int| 0 <= i < 8 implies b[i + 8] == #[trigger] y[i] by {
    }
    assert forall|i: int| 0 <= i < 8 implies b[i + 16] == #[trigger] z[i] by {
    }
}

/// Rows and index entries are spoken of as they are, and what reading an index returned
/// by the index or the error in it.
pub proof fn law_view_of_what_is_read(
    row: DataRecord,
    index: Seq<IndexEntry>,
    result: Result<Vec<IndexEntry>, StorageError>,
)
    ensures
        row@.0 == row.key@,
        row@.1 == row.record@,
        index_view(index).len() == index.len(),
        forall|i: int|
            0 <= i < index.len() ==> (#[trigger] index_view(index)[i]).0 == index[i].key@
                && index_view(index)[i].1 == index[i].offset,
        result matches Ok(found) ==> index_outcome(result) == Ok::<
            Seq<(Seq<u8>, u64)>,
            ErrorView,
        >(index_view(found@)),
        result matches Err(error) ==> index_outcome(result) == Err::<
            Seq<(Seq<u8>, u64)>,
            ErrorView,
        >(error@),
{
}

} // verus!
