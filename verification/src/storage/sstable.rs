//! Immutable sorted tables.
//!
//! A table file is written once, from rows in strictly increasing key order, and
//! is then only read. [`SstableWriter::write`] gives the bytes of such a file, and
//! [`SstableReader::open`] takes the index and the filter out of them.
use vstd::prelude::*;
use vstd::string::StringExecFns;

use crate::bytes::{
    compare, copy_bytes, holds_u64, lemma_le_len, lemma_lex_irreflexive, lemma_lex_transitive,
    lex_lt, push_u64, starts_with, Order,
};
use crate::storage::bloom::{
    filter_of, law_new_filter, law_no_false_negatives, law_parts_of_a_filter, might_contain_spec,
    new_spec, BloomFilter, FilterView,
};
use crate::storage::error::{invalid_input, outcome, ErrorView, StorageError};
use crate::storage::record_map::{lemma_run_prefix, rows_of, ValueRecord};
use crate::storage::rows::{
    at_most, has_key, lemma_prefix_run, lemma_records_of_sorted, lemma_sorted_part, no_empty_key,
    records_of, sorted, with_prefix,
};
use crate::storage::table_format::{
    corrupt_file, data_record, decode_data_spec, decode_filter_spec, decode_index_spec,
    encode_data_spec, encode_filter_spec, encode_index_spec, filter_block, footer_bytes,
    footer_spec, index_block, index_view, is_data_record, is_filter_block, law_bytes_of_a_footer,
    law_data_round_trip, law_filter_has_bytes, law_filter_round_trip, law_footer_round_trip,
    law_index_has_bytes, law_index_round_trip, law_row_has_bytes, read_bloom_filter_block,
    read_data_record, read_footer, read_index_block, value_bytes, write_bloom_filter_block,
    write_data_record, write_index_block, DataRecord, IndexEntry, SstableFooter, FOOTER_V2_LEN,
    MAGIC_V2,
};
use crate::text::{
    all_digits, file_stem, file_stem_spec, law_parsed_number, law_parts_of_a_path,
    law_value_of_digits, parse_u64, parse_u64_spec, place_value,
};

verus! {

/// The number of a table. A table with a higher number is newer.
#[derive(Clone, Copy, Debug, PartialEq, Eq, PartialOrd, Ord, Hash, Structural)]
pub struct SstableId(pub u64);

/// What is known of a table without reading its rows.
#[derive(Debug, PartialEq, Eq)]
pub struct SstableMetadata {
    pub id: SstableId,
    pub entry_count: u64,
    pub smallest_key: Vec<u8>,
    pub largest_key: Vec<u8>,
}

/// A table's metadata as contracts speak of it.
#[verifier::ext_equal]
pub struct MetadataView {
    pub id: u64,
    pub entry_count: nat,
    pub smallest_key: Seq<u8>,
    pub largest_key: Seq<u8>,
}

impl View for SstableMetadata {
    type V = MetadataView;

    open spec fn view(&self) -> MetadataView {
        MetadataView {
            id: self.id.0,
            entry_count: self.entry_count as nat,
            smallest_key: self.smallest_key@,
            largest_key: self.largest_key@,
        }
    }
}

impl Clone for SstableMetadata {
    fn clone(&self) -> (copy: Self)
        ensures
            copy@ == self@,
    {
        SstableMetadata {
            id: self.id,
            entry_count: self.entry_count,
            smallest_key: copy_bytes(self.smallest_key.as_slice()),
            largest_key: copy_bytes(self.largest_key.as_slice()),
        }
    }
}

/// The metadata of a table whose keys are those of `rows`.
pub open spec fn metadata_of<V>(id: u64, rows: Seq<(Seq<u8>, V)>) -> MetadataView {
    MetadataView {
        id,
        entry_count: rows.len(),
        smallest_key: rows[0].0,
        largest_key: rows[rows.len() - 1].0,
    }
}

// Writing a table.

/// The bytes of rows, one behind the other.
pub open spec fn data_bytes(rows: Seq<(Seq<u8>, Option<Seq<u8>>)>) -> Seq<u8>
    decreases rows.len(),
{
    if rows.len() == 0 {
        Seq::empty()
    } else {
        data_bytes(rows.drop_last()) + data_record(rows.last())
    }
}

/// The first reason why one of the rows cannot be written.
pub open spec fn data_error(rows: Seq<(Seq<u8>, Option<Seq<u8>>)>) -> Option<ErrorView>
    decreases rows.len(),
{
    if rows.len() == 0 {
        None
    } else {
        match data_error(rows.drop_last()) {
            Some(error) => Some(error),
            None => match encode_data_spec(rows.last()) {
                Ok(_) => None,
                Err(error) => Some(error),
            },
        }
    }
}

/// Where each row begins.
pub open spec fn index_of(rows: Seq<(Seq<u8>, Option<Seq<u8>>)>) -> Seq<(Seq<u8>, u64)> {
    Seq::new(rows.len(), |i: int| (rows[i].0, data_bytes(rows.take(i)).len() as u64))
}

/// The keys of rows.
pub open spec fn keys_of<V>(rows: Seq<(Seq<u8>, V)>) -> Seq<Seq<u8>> {
    rows.map_values(|row: (Seq<u8>, V)| row.0)
}

/// The filter of a table with these rows.
pub open spec fn table_filter(rows: Seq<(Seq<u8>, Option<Seq<u8>>)>) -> FilterView {
    filter_of(new_spec(rows.len()), keys_of(rows))
}

/// The file of a table with these rows.
pub open spec fn table_bytes(rows: Seq<(Seq<u8>, Option<Seq<u8>>)>) -> Seq<u8> {
    let data = data_bytes(rows);
    let index = index_block(index_of(rows));
    data + index + filter_block(table_filter(rows)) + footer_bytes(
        data.len(),
        data.len() + index.len(),
    )
}

/// The file of a table with these rows, or why there is none.
#[verifier::opaque]
pub open spec fn write_spec(rows: Seq<(Seq<u8>, Option<Seq<u8>>)>) -> Result<Seq<u8>, ErrorView> {
    if rows.len() == 0 {
        Err(ErrorView::InvalidInput("cannot write an empty SSTable"@))
    } else if !sorted(rows) {
        Err(ErrorView::InvalidInput("SSTable entries must be strictly sorted by key"@))
    } else if data_error(rows) is Some {
        Err(data_error(rows)->0)
    } else if encode_index_spec(index_of(rows)) is Err {
        Err(encode_index_spec(index_of(rows))->Err_0)
    } else if encode_filter_spec(table_filter(rows)) is Err {
        Err(encode_filter_spec(table_filter(rows))->Err_0)
    } else {
        Ok(table_bytes(rows))
    }
}

/// A new table: its metadata, and the bytes of its file.
#[derive(Debug)]
pub struct NewTable {
    pub metadata: SstableMetadata,
    pub contents: Vec<u8>,
}

/// What writing a table returned, as contracts speak of it.
pub open spec fn write_outcome(result: Result<NewTable, StorageError>) -> Result<
    Seq<u8>,
    ErrorView,
> {
    match result {
        Ok(table) => Ok(table.contents@),
        Err(error) => Err(error@),
    }
}

/// Checks that the keys of rows strictly increase.
pub fn validate_sorted_entries(entries: &[(Vec<u8>, ValueRecord)]) -> (done: Result<
    (),
    StorageError,
>)
    ensures
        done is Ok <==> sorted(rows_of(entries@)),
        done is Err ==> done->Err_0@ == ErrorView::InvalidInput(
            "SSTable entries must be strictly sorted by key"@,
        ),
{
    let ghost rows = rows_of(entries@);
    if entries.len() == 0 {
        return Ok(());
    }
    let mut i: usize = 1;
    while i < entries.len()
        invariant
            1 <= i <= entries.len(),
            rows == rows_of(entries@),
            forall|a: int, b: int|
                0 <= a < b < i ==> lex_lt(#[trigger] rows[a].0, #[trigger] rows[b].0),
        decreases entries.len() - i,
    {
        match compare(entries[i - 1].0.as_slice(), entries[i].0.as_slice()) {
            Order::Less => {},
            _ => {
                assert(!lex_lt(rows[i - 1].0, rows[i as int].0));
                return Err(invalid_input("SSTable entries must be strictly sorted by key"));
            },
        }
        assert forall|a: int, b: int| 0 <= a < b < i + 1 implies lex_lt(
            #[trigger] rows[a].0,
            #[trigger] rows[b].0,
        ) by {
            if b == i && a < i - 1 {
                assert(lex_lt(rows[a].0, rows[i - 1].0));
                lemma_lex_transitive(rows[a].0, rows[i - 1].0, rows[i as int].0);
            }
        }
        i += 1;
    }
    Ok(())
}

/// Each of the rows that can be written takes ten bytes or more.
proof fn lemma_data_len(rows: Seq<(Seq<u8>, Option<Seq<u8>>)>)
    requires
        data_error(rows) is None,
    ensures
        data_bytes(rows).len() >= 10 * rows.len(),
    decreases rows.len(),
{
    if rows.len() > 0 {
        lemma_data_len(rows.drop_last());
        law_data_round_trip(rows.last(), Seq::empty());
    }
}

/// An error among the first rows is the error of all.
proof fn lemma_data_error_stays(rows: Seq<(Seq<u8>, Option<Seq<u8>>)>, i: int)
    requires
        0 <= i <= rows.len(),
        data_error(rows.take(i)) is Some,
    ensures
        data_error(rows) == data_error(rows.take(i)),
    decreases rows.len(),
{
    if i == rows.len() {
        assert(rows.take(i) =~= rows);
    } else {
        assert(rows.drop_last().take(i) =~= rows.take(i));
        lemma_data_error_stays(rows.drop_last(), i);
    }
}

/// Writes table files.
#[derive(Debug)]
pub struct SstableWriter;

impl SstableWriter {
    /// The file of a table with the given number and rows.
    pub fn write(id: SstableId, entries: &[(Vec<u8>, ValueRecord)]) -> (table: Result<
        NewTable,
        StorageError,
    >)
        ensures
            write_outcome(table) == write_spec(rows_of(entries@)),
            table is Ok ==> table->Ok_0.metadata@ == metadata_of(id.0, rows_of(entries@)),
            table matches Ok(new) ==> new.metadata.id == id && new.metadata.entry_count
                == entries.len() && new.metadata.smallest_key@ == entries@[0].0@
                && new.metadata.largest_key@ == entries@[entries.len() - 1].0@,
    {
        proof {
            reveal(write_spec);
        }
        let ghost rows = rows_of(entries@);
        if entries.len() == 0 {
            return Err(invalid_input("cannot write an empty SSTable"));
        }
        if let Err(error) = validate_sorted_entries(entries) {
            return Err(error);
        }
        let mut out: Vec<u8> = Vec::new();
        let mut index: Vec<IndexEntry> = Vec::with_capacity(entries.len());
        let mut i: usize = 0;
        assert(rows.take(0) =~= Seq::empty());
        while i < entries.len()
            invariant
                i <= entries.len(),
                rows == rows_of(entries@),
                rows.len() > 0,
                sorted(rows),
                data_error(rows.take(i as int)) is None,
                out@ == data_bytes(rows.take(i as int)),
                index.len() == i,
                forall|j: int|
                    0 <= j < i ==> (#[trigger] index@[j])@ == (
                        rows[j].0,
                        data_bytes(rows.take(j)).len() as u64,
                    ),
            decreases entries.len() - i,
        {
            let offset: u64 = out.len() as u64;
            assert(rows.take(i + 1).drop_last() =~= rows.take(i as int));
            assert(rows.take(i + 1).last() == rows[i as int]);
            if let Err(error) = write_data_record(
                &mut out,
                entries[i].0.as_slice(),
                &entries[i].1,
            ) {
                proof {
                    reveal(write_spec);
                    lemma_data_error_stays(rows, i + 1);
                }
                return Err(error);
            }
            index.push(IndexEntry { key: copy_bytes(entries[i].0.as_slice()), offset });
            i += 1;
        }
        assert(rows.take(i as int) =~= rows);
        assert(index_view(index@) =~= index_of(rows));
        proof {
            lemma_data_len(rows);
        }
        let index_offset: u64 = out.len() as u64;
        let filter = table_filter_of(entries);
        if let Err(error) = write_index_block(&mut out, &index) {
            return Err(error);
        }
        let bloom_filter_offset: u64 = out.len() as u64;
        if let Err(error) = write_bloom_filter_block(&mut out, &filter) {
            return Err(error);
        }
        push_u64(&mut out, index_offset);
        push_u64(&mut out, bloom_filter_offset);
        push_u64(&mut out, MAGIC_V2);
        assert(out@ =~= table_bytes(rows));
        let last: usize = entries.len() - 1;
        let metadata = SstableMetadata {
            id,
            entry_count: entries.len() as u64,
            smallest_key: copy_bytes(entries[0].0.as_slice()),
            largest_key: copy_bytes(entries[last].0.as_slice()),
        };
        Ok(NewTable { metadata, contents: out })
    }
}

/// The filter of a table with these rows.
fn table_filter_of(entries: &[(Vec<u8>, ValueRecord)]) -> (filter: BloomFilter)
    requires
        10 * entries.len() <= usize::MAX,
    ensures
        filter.wf(),
        filter@ == table_filter(rows_of(entries@)),
{
    let ghost rows = rows_of(entries@);
    let ghost keys = keys_of(rows);
    let mut filter = BloomFilter::new(entries.len());
    let mut i: usize = 0;
    assert(keys.take(0) =~= Seq::empty());
    while i < entries.len()
        invariant
            i <= entries.len(),
            rows == rows_of(entries@),
            keys == keys_of(rows),
            filter.wf(),
            filter@ == filter_of(new_spec(rows.len()), keys.take(i as int)),
        decreases entries.len() - i,
    {
        filter.insert(entries[i].0.as_slice());
        assert(keys.take(i + 1).drop_last() =~= keys.take(i as int));
        assert(keys.take(i + 1).last() == entries@[i as int].0@);
        i += 1;
    }
    assert(keys.take(i as int) =~= keys);
    filter
}

// Reading a table.

/// An open table as contracts speak of it.
#[verifier::ext_equal]
pub struct TableView {
    pub path: Seq<char>,
    pub id: u64,
    pub index: Seq<(Seq<u8>, u64)>,
    pub filter: Option<FilterView>,
}

impl TableView {
    /// The table has the number in its path; the index is not empty, in strict key
    /// order and without the empty key; and the filter can be used.
    pub open spec fn wf(self) -> bool {
        &&& id_spec(self.path) == Ok::<u64, ErrorView>(self.id)
        &&& self.index.len() > 0
        &&& self.index.len() <= u32::MAX
        &&& sorted(self.index)
        &&& no_empty_key(self.index)
        &&& self.filter is Some ==> self.filter->0.wf()
    }
}

/// The number in a table's path, or why there is none.
pub open spec fn id_spec(path: Seq<char>) -> Result<u64, ErrorView> {
    match file_stem_spec(path) {
        None => Err(ErrorView::CorruptSstable("invalid SSTable path "@ + path)),
        Some(stem) => match parse_u64_spec(stem) {
            None => Err(ErrorView::CorruptSstable("invalid SSTable id in "@ + path)),
            Some(id) => Ok(id),
        },
    }
}

/// The number in a table's path.
pub fn sstable_id_from_path(path: &str) -> (id: Result<SstableId, StorageError>)
    ensures
        match id_spec(path@) {
            Ok(number) => id is Ok && id->Ok_0.0 == number,
            Err(error) => id is Err && id->Err_0@ == error,
        },
{
    match file_stem(path) {
        None => {
            let mut message = String::from_str("invalid SSTable path ");
            message.append(path);
            Err(StorageError::CorruptSstable(message))
        },
        Some(stem) => match parse_u64(&stem) {
            None => {
                let mut message = String::from_str("invalid SSTable id in ");
                message.append(path);
                Err(StorageError::CorruptSstable(message))
            },
            Some(id) => Ok(SstableId(id)),
        },
    }
}

/// The table in a file, or what is wrong with the file.
#[verifier::opaque]
pub open spec fn table_spec(path: Seq<char>, file: Seq<u8>) -> Result<TableView, ErrorView> {
    match (id_spec(path), footer_spec(path, file)) {
        (Err(error), _) => Err(error),
        (_, Err(error)) => Err(error),
        (Ok(id), Ok(footer)) => {
            let end = file.len() - footer.footer_len;
            let filter_at = footer.bloom_filter_offset;
            if footer.index_offset >= end {
                Err(ErrorView::CorruptSstable(path + " has an invalid index offset"@))
            } else if filter_at is Some && (filter_at->0 <= footer.index_offset || filter_at->0
                >= end) {
                Err(ErrorView::CorruptSstable(path + " has an invalid Bloom filter offset"@))
            } else {
                match decode_index_spec(file.skip(footer.index_offset as int)) {
                    Err(error) => Err(error),
                    Ok(index) => if index.len() == 0 {
                        Err(ErrorView::CorruptSstable(path + " contains an empty index"@))
                    } else {
                        match filter_at {
                            None => Ok(TableView { path, id, index, filter: None }),
                            Some(at) => match decode_filter_spec(file.skip(at as int)) {
                                Err(error) => Err(error),
                                Ok(filter) => Ok(
                                    TableView { path, id, index, filter: Some(filter) },
                                ),
                            },
                        }
                    },
                }
            }
        },
    }
}

/// A table is at the path that it was opened under, and has the number in it.
pub proof fn lemma_table_path(path: Seq<char>, file: Seq<u8>)
    ensures
        table_spec(path, file) matches Ok(table) ==> table.path == path && id_spec(path) == Ok::<
            u64,
            ErrorView,
        >(table.id),
{
    reveal(table_spec);
}

/// Where a table's record of a key begins, if the table has one.
pub open spec fn find_spec(table: TableView, key: Seq<u8>) -> Option<u64> {
    if table.filter is Some && !might_contain_spec(table.filter->0, key) {
        None
    } else if has_key(table.index, key) {
        Some(records_of(table.index)[key])
    } else {
        None
    }
}

/// What of a file lies at an offset and behind.
pub open spec fn tail(file: Seq<u8>, offset: u64) -> Seq<u8> {
    if offset <= file.len() {
        file.skip(offset as int)
    } else {
        Seq::empty()
    }
}

/// The row at an offset of a file.
pub open spec fn row_at(file: Seq<u8>, offset: u64) -> Result<
    (Seq<u8>, Option<Seq<u8>>),
    ErrorView,
> {
    decode_data_spec(tail(file, offset))
}

/// The rows that index entries point at, or the first error among them.
pub open spec fn read_rows(file: Seq<u8>, index: Seq<(Seq<u8>, u64)>) -> Result<
    Seq<(Seq<u8>, Option<Seq<u8>>)>,
    ErrorView,
>
    decreases index.len(),
{
    if index.len() == 0 {
        Ok(Seq::empty())
    } else {
        match read_rows(file, index.drop_last()) {
            Err(error) => Err(error),
            Ok(front) => match row_at(file, index.last().1) {
                Err(error) => Err(error),
                Ok(row) => Ok(front.push(row)),
            },
        }
    }
}

/// What a table says of a key.
pub open spec fn get_spec(table: TableView, file: Seq<u8>, key: Seq<u8>) -> Result<
    Option<Option<Seq<u8>>>,
    ErrorView,
> {
    match find_spec(table, key) {
        None => Ok(None),
        Some(offset) => match row_at(file, offset) {
            Err(error) => Err(error),
            Ok(row) => Ok(Some(row.1)),
        },
    }
}

/// What looking a key up returned, as contracts speak of it.
pub open spec fn get_outcome(result: Result<Option<ValueRecord>, StorageError>) -> Result<
    Option<Option<Seq<u8>>>,
    ErrorView,
> {
    match result {
        Ok(Some(record)) => Ok(Some(record@)),
        Ok(None) => Ok(None),
        Err(error) => Err(error@),
    }
}

/// What reading rows returned, as contracts speak of it.
pub open spec fn rows_outcome(result: Result<Vec<(Vec<u8>, ValueRecord)>, StorageError>) -> Result<
    Seq<(Seq<u8>, Option<Seq<u8>>)>,
    ErrorView,
> {
    match result {
        Ok(entries) => Ok(rows_of(entries@)),
        Err(error) => Err(error@),
    }
}

/// An open table: its index and its filter, without its rows.
#[derive(Debug)]
pub struct SstableReader {
    path: String,
    metadata: SstableMetadata,
    index: Vec<IndexEntry>,
    bloom_filter: Option<BloomFilter>,
}

impl View for SstableReader {
    type V = TableView;

    closed spec fn view(&self) -> TableView {
        TableView {
            path: self.path@,
            id: self.metadata.id.0,
            index: index_view(self.index@),
            filter: match self.bloom_filter {
                Some(filter) => Some(filter@),
                None => None,
            },
        }
    }
}

/// The first position of an index whose key does not come before `key`.
pub fn lower_bound(index: &Vec<IndexEntry>, key: &[u8]) -> (at: usize)
    requires
        sorted(index_view(index@)),
    ensures
        at <= index.len(),
        forall|i: int| 0 <= i < at ==> lex_lt(#[trigger] index_view(index@)[i].0, key@),
        forall|i: int|
            at <= i < index.len() ==> !lex_lt(#[trigger] index_view(index@)[i].0, key@),
{
    let ghost all = index_view(index@);
    let mut left: usize = 0;
    let mut right: usize = index.len();
    while left < right
        invariant
            all == index_view(index@),
            sorted(all),
            left <= right <= index.len(),
            forall|i: int| 0 <= i < left ==> lex_lt(#[trigger] all[i].0, key@),
            forall|i: int| right <= i < all.len() ==> !lex_lt(#[trigger] all[i].0, key@),
        decreases right - left,
    {
        let mid: usize = left + (right - left) / 2;
        let ghost found = all[mid as int].0;
        match compare(index[mid].key.as_slice(), key) {
            Order::Less => {
                assert forall|i: int| 0 <= i <= mid implies lex_lt(
                    #[trigger] all[i].0,
                    key@,
                ) by {
                    if i < mid {
                        lemma_lex_transitive(all[i].0, found, key@);
                    }
                }
                left = mid + 1;
            },
            _ => {
                assert forall|i: int| mid <= i < all.len() implies !lex_lt(
                    #[trigger] all[i].0,
                    key@,
                ) by {
                    if i > mid && lex_lt(all[i].0, key@) {
                        lemma_lex_transitive(found, all[i].0, key@);
                    }
                }
                right = mid;
            },
        }
    }
    left
}

/// Reads the row at an offset of a file.
pub fn read_record_at(file: &[u8], offset: u64) -> (row: Result<DataRecord, StorageError>)
    ensures
        outcome(row) == row_at(file@, offset),
{
    if offset <= file.len() as u64 {
        let bytes = vstd::slice::slice_subrange(file, offset as usize, file.len());
        assert(bytes@ =~= file@.skip(offset as int));
        read_data_record(bytes)
    } else {
        let nothing: Vec<u8> = Vec::new();
        assert(nothing@ =~= Seq::empty());
        read_data_record(nothing.as_slice())
    }
}

impl SstableReader {
    /// The metadata is that of the index, which is in order, and the filter can
    /// be used.
    pub closed spec fn wf(&self) -> bool {
        &&& self@.wf()
        &&& self.metadata@ == metadata_of(self@.id, self@.index)
    }

    /// What `wf` says of the table.
    pub proof fn lemma_wf(&self)
        requires
            self.wf(),
        ensures
            self@.wf(),
    {
    }

    /// Opens the table in a file.
    pub fn open(path: &str, file: &[u8]) -> (reader: Result<Self, StorageError>)
        ensures
            outcome(reader) == table_spec(path@, file@),
            reader is Ok ==> reader->Ok_0.wf(),
    {
        proof {
            reveal(table_spec);
        }
        let id = match sstable_id_from_path(path) {
            Ok(id) => id,
            Err(error) => {
                return Err(error);
            },
        };
        let footer = match read_footer(path, file) {
            Ok(footer) => footer,
            Err(error) => {
                return Err(error);
            },
        };
        let end: u64 = file.len() as u64 - footer.footer_len;
        if footer.index_offset >= end {
            return Err(corrupt_file(path, " has an invalid index offset"));
        }
        if let Some(at) = footer.bloom_filter_offset {
            if at <= footer.index_offset || at >= end {
                return Err(corrupt_file(path, " has an invalid Bloom filter offset"));
            }
        }
        let index = match read_index_block(file, footer.index_offset as usize) {
            Ok(index) => index,
            Err(error) => {
                return Err(error);
            },
        };
        if index.len() == 0 {
            return Err(corrupt_file(path, " contains an empty index"));
        }
        let last: usize = index.len() - 1;
        let metadata = SstableMetadata {
            id,
            entry_count: index.len() as u64,
            smallest_key: copy_bytes(index[0].key.as_slice()),
            largest_key: copy_bytes(index[last].key.as_slice()),
        };
        let bloom_filter = match footer.bloom_filter_offset {
            Some(at) => match read_bloom_filter_block(file, at as usize) {
                Ok(filter) => Some(filter),
                Err(error) => {
                    return Err(error);
                },
            },
            None => None,
        };
        Ok(SstableReader { path: String::from_str(path), metadata, index, bloom_filter })
    }

    /// What is known of the table.
    pub fn metadata(&self) -> (metadata: &SstableMetadata)
        requires
            self.wf(),
        ensures
            metadata@ == metadata_of(self@.id, self@.index),
            metadata.id.0 == self@.id,
            metadata.entry_count == self@.index.len(),
            metadata.smallest_key@ == self@.index[0].0,
            metadata.largest_key@ == self@.index[self@.index.len() - 1].0,
    {
        &self.metadata
    }

    /// Where the table's file is.
    pub fn path(&self) -> (path: &str)
        ensures
            path@ == self@.path,
    {
        self.path.as_str()
    }

    /// Whether the table has a filter.
    pub fn has_bloom_filter(&self) -> (yes: bool)
        ensures
            yes == (self@.filter is Some),
    {
        self.bloom_filter.is_some()
    }

    /// Whether the filter, if there is one, leaves it open that the table has the
    /// key.
    pub fn might_contain(&self, key: &[u8]) -> (yes: bool)
        requires
            self.wf(),
        ensures
            yes == (self@.filter is Some ==> might_contain_spec(self@.filter->0, key@)),
    {
        match &self.bloom_filter {
            Some(filter) => filter.might_contain(key),
            None => true,
        }
    }

    /// Where the record of a key begins.
    pub fn find(&self, key: &[u8]) -> (offset: Option<u64>)
        requires
            self.wf(),
        ensures
            offset == find_spec(self@, key@),
    {
        let ghost index = self@.index;
        let ghost n = index.len() as int;
        if let Order::Less = compare(key, self.metadata.smallest_key.as_slice()) {
            proof {
                if has_key(index, key@) {
                    let i = choose|i: int| 0 <= i < n && #[trigger] index[i].0 == key@;
                    lemma_lex_irreflexive(key@);
                    if i > 0 {
                        lemma_lex_transitive(key@, index[0].0, index[i].0);
                    }
                }
            }
            return None;
        }
        if let Order::Greater = compare(key, self.metadata.largest_key.as_slice()) {
            proof {
                if has_key(index, key@) {
                    let i = choose|i: int| 0 <= i < n && #[trigger] index[i].0 == key@;
                    lemma_lex_irreflexive(key@);
                    if i < n - 1 {
                        lemma_lex_transitive(index[i].0, index[n - 1].0, key@);
                    }
                }
            }
            return None;
        }
        if !self.might_contain(key) {
            return None;
        }
        let at = lower_bound(&self.index, key);
        proof {
            lemma_records_of_sorted(index);
        }
        if at < self.index.len() {
            if let Order::Equal = compare(self.index[at].key.as_slice(), key) {
                assert(index[at as int].0 == key@);
                return Some(self.index[at].offset);
            }
        }
        proof {
            if has_key(index, key@) {
                let i = choose|i: int| 0 <= i < n && #[trigger] index[i].0 == key@;
                lemma_lex_irreflexive(key@);
                if i > at {
                    assert(lex_lt(index[at as int].0, index[i].0));
                }
            }
        }
        None
    }

    /// The record of a key, from the table's file.
    pub fn get(&self, key: &[u8], file: &[u8]) -> (record: Result<
        Option<ValueRecord>,
        StorageError,
    >)
        requires
            self.wf(),
        ensures
            get_outcome(record) == get_spec(self@, file@, key@),
    {
        match self.find(key) {
            None => Ok(None),
            Some(offset) => match read_record_at(file, offset) {
                Ok(row) => Ok(Some(row.record)),
                Err(error) => Err(error),
            },
        }
    }

    /// Whether the table has a key with the prefix.
    pub fn has_prefix(&self, prefix: &[u8]) -> (yes: bool)
        requires
            self.wf(),
        ensures
            yes == (with_prefix(self@.index, prefix@).len() > 0),
    {
        let (from, to) = self.prefix_run(prefix, 1);
        assert(self@.index.subrange(from as int, to as int).len() == to - from);
        from < to
    }

    /// The positions of the first `limit` keys with a prefix.
    fn prefix_run(&self, prefix: &[u8], limit: usize) -> (run: (usize, usize))
        requires
            self.wf(),
        ensures
            run.0 <= run.1 <= self.index.len(),
            self@.index.subrange(run.0 as int, run.1 as int) == at_most(
                with_prefix(self@.index, prefix@),
                limit as nat,
            ),
    {
        let ghost index = self@.index;
        let from = lower_bound(&self.index, prefix);
        let mut to: usize = from;
        while to < self.index.len() && to - from < limit && starts_with(
            self.index[to].key.as_slice(),
            prefix,
        )
            invariant
                from <= to <= self.index.len(),
                to - from <= limit,
                index == self@.index,
                forall|i: int| from <= i < to ==> prefix@.is_prefix_of(#[trigger] index[i].0),
            decreases self.index.len() - to,
        {
            to += 1;
        }
        proof {
            lemma_prefix_run_start(index, prefix@, from as int, to as int, limit as nat);
        }
        (from, to)
    }

    /// The rows at the given positions of the index, from the table's file.
    fn read_range(&self, from: usize, to: usize, file: &[u8]) -> (rows: Result<
        Vec<(Vec<u8>, ValueRecord)>,
        StorageError,
    >)
        requires
            from <= to <= self.index.len(),
        ensures
            rows_outcome(rows) == read_rows(
                file@,
                self@.index.subrange(from as int, to as int),
            ),
    {
        let ghost part = self@.index.subrange(from as int, to as int);
        let mut rows: Vec<(Vec<u8>, ValueRecord)> = Vec::new();
        let mut i: usize = from;
        assert(part.take(0) =~= Seq::empty());
        assert(rows_of(rows@) =~= Seq::empty());
        while i < to
            invariant
                from <= i <= to <= self.index.len(),
                part == self@.index.subrange(from as int, to as int),
                read_rows(file@, part.take(i - from)) == Ok::<
                    Seq<(Seq<u8>, Option<Seq<u8>>)>,
                    ErrorView,
                >(rows_of(rows@)),
            decreases to - i,
        {
            let ghost before = rows@;
            assert(part.take(i - from + 1).drop_last() =~= part.take(i - from));
            assert(part.take(i - from + 1).last() == self@.index[i as int]);
            match read_record_at(file, self.index[i].offset) {
                Ok(row) => {
                    rows.push((row.key, row.record));
                    assert(rows_of(rows@) =~= rows_of(before).push((row.key@, row.record@)));
                },
                Err(error) => {
                    proof {
                        lemma_read_rows_error(file@, part, i - from + 1);
                    }
                    return Err(error);
                },
            }
            i += 1;
        }
        assert(part.take(i - from) =~= part);
        Ok(rows)
    }

    /// The first `limit` rows whose keys have a prefix, from the table's file.
    pub fn scan_prefix(&self, prefix: &[u8], limit: usize, file: &[u8]) -> (rows: Result<
        Vec<(Vec<u8>, ValueRecord)>,
        StorageError,
    >)
        requires
            self.wf(),
        ensures
            rows_outcome(rows) == read_rows(
                file@,
                at_most(with_prefix(self@.index, prefix@), limit as nat),
            ),
    {
        let (from, to) = self.prefix_run(prefix, limit);
        self.read_range(from, to, file)
    }

    /// All rows, from the table's file.
    pub fn entries(&self, file: &[u8]) -> (rows: Result<Vec<(Vec<u8>, ValueRecord)>, StorageError>)
        ensures
            rows_outcome(rows) == read_rows(file@, self@.index),
    {
        assert(self@.index.subrange(0, self@.index.len() as int) =~= self@.index);
        self.read_range(0, self.index.len(), file)
    }
}

/// An error among the first index entries is the error of all.
proof fn lemma_read_rows_error(file: Seq<u8>, index: Seq<(Seq<u8>, u64)>, i: int)
    requires
        0 <= i <= index.len(),
        read_rows(file, index.take(i)) is Err,
    ensures
        read_rows(file, index) == read_rows(file, index.take(i)),
    decreases index.len(),
{
    if i == index.len() {
        assert(index.take(i) =~= index);
    } else {
        assert(index.drop_last().take(i) =~= index.take(i));
        lemma_read_rows_error(file, index.drop_last(), i);
    }
}

/// The start of the run of keys with a prefix is the first of the keys with it.
proof fn lemma_prefix_run_start(
    index: Seq<(Seq<u8>, u64)>,
    prefix: Seq<u8>,
    from: int,
    to: int,
    limit: nat,
)
    requires
        sorted(index),
        0 <= from <= to <= index.len(),
        forall|i: int| 0 <= i < from ==> lex_lt(#[trigger] index[i].0, prefix),
        forall|i: int| from <= i < index.len() ==> !lex_lt(#[trigger] index[i].0, prefix),
        forall|i: int| from <= i < to ==> prefix.is_prefix_of(#[trigger] index[i].0),
        to - from <= limit,
        to == index.len() || to - from == limit || !prefix.is_prefix_of(index[to].0),
    ensures
        index.subrange(from, to) == at_most(with_prefix(index, prefix), limit),
{
    lemma_run_prefix(index, prefix, from, to);
    if to == index.len() || !prefix.is_prefix_of(index[to].0) {
        lemma_prefix_run(index, prefix, from, to);
    }
}

// What a written table gives back.

/// Whether a table's file holds its rows: the table is what opening the file
/// gives, each index entry leads to a row with its key, and the filter rules no
/// key of the index out.
pub open spec fn holds_rows(
    table: TableView,
    file: Seq<u8>,
    rows: Seq<(Seq<u8>, Option<Seq<u8>>)>,
) -> bool {
    &&& table_spec(table.path, file) == Ok::<TableView, ErrorView>(table)
    &&& table.wf()
    &&& rows.len() == table.index.len()
    &&& sorted(rows)
    &&& forall|i: int|
        0 <= i < rows.len() ==> {
            &&& (#[trigger] table.index[i]).0 == rows[i].0
            &&& row_at(file, table.index[i].1) == Ok::<
                (Seq<u8>, Option<Seq<u8>>),
                ErrorView,
            >(rows[i])
            &&& table.filter is Some ==> might_contain_spec(table.filter->0, rows[i].0)
        }
}

/// Rows without an error can each be written.
proof fn lemma_no_data_error(rows: Seq<(Seq<u8>, Option<Seq<u8>>)>, i: int)
    requires
        data_error(rows) is None,
        0 <= i < rows.len(),
    ensures
        encode_data_spec(rows[i]) is Ok,
    decreases rows.len(),
{
    if i < rows.len() - 1 {
        assert(rows.drop_last()[i] == rows[i]);
        lemma_no_data_error(rows.drop_last(), i);
    }
}

/// The bytes of rows are those of the first, of one, and of the rest.
proof fn lemma_data_split(rows: Seq<(Seq<u8>, Option<Seq<u8>>)>, i: int) -> (rest: Seq<u8>)
    requires
        0 <= i < rows.len(),
    ensures
        data_bytes(rows) == data_bytes(rows.take(i)) + (data_record(rows[i]) + rest),
    decreases rows.len(),
{
    let front = rows.drop_last();
    if i == rows.len() - 1 {
        assert(rows.take(i) =~= front);
        assert(data_bytes(rows) =~= data_bytes(rows.take(i)) + (data_record(rows[i])
            + Seq::<u8>::empty()));
        Seq::empty()
    } else {
        let rest = lemma_data_split(front, i);
        assert(front.take(i) =~= rows.take(i));
        assert(front[i] == rows[i]);
        assert(data_bytes(rows) =~= data_bytes(rows.take(i)) + (data_record(rows[i]) + (rest
            + data_record(rows.last()))));
        rest + data_record(rows.last())
    }
}

/// A row of a written table is read back from where the index points.
#[verifier::rlimit(20)]
proof fn lemma_written_row(rows: Seq<(Seq<u8>, Option<Seq<u8>>)>, file: Seq<u8>, i: int)
    requires
        write_spec(rows) == Ok::<Seq<u8>, ErrorView>(file),
        file.len() <= u64::MAX,
        0 <= i < rows.len(),
    ensures
        row_at(file, index_of(rows)[i].1) == Ok::<(Seq<u8>, Option<Seq<u8>>), ErrorView>(rows[i]),
{
    reveal(write_spec);
    let rest = lemma_data_split(rows, i);
    let data = data_bytes(rows);
    let front = data_bytes(rows.take(i));
    let behind = file.skip(data.len() as int);
    let offset = index_of(rows)[i].1;
    assert(offset == front.len());
    assert(file =~= data + behind);
    assert(tail(file, offset) =~= data_record(rows[i]) + (rest + behind));
    lemma_no_data_error(rows, i);
    law_data_round_trip(rows[i], rest + behind);
}

/// The parts of a written file stand where opening looks for them.
proof fn lemma_written_parts(
    path: Seq<char>,
    rows: Seq<(Seq<u8>, Option<Seq<u8>>)>,
    file: Seq<u8>,
)
    requires
        write_spec(rows) == Ok::<Seq<u8>, ErrorView>(file),
        file.len() <= u64::MAX,
    ensures
        ({
            let index_at = data_bytes(rows).len();
            let filter_at = index_at + index_block(index_of(rows)).len();
            &&& footer_spec(path, file) == Ok::<SstableFooter, ErrorView>(
                SstableFooter {
                    index_offset: index_at as u64,
                    bloom_filter_offset: Some(filter_at as u64),
                    footer_len: FOOTER_V2_LEN,
                },
            )
            &&& index_at < filter_at < file.len() - FOOTER_V2_LEN
            &&& file.skip(index_at as int) == index_block(index_of(rows)) + file.skip(
                filter_at as int,
            )
            &&& file.skip(filter_at as int) == filter_block(table_filter(rows)) + footer_bytes(
                index_at,
                filter_at,
            )
        }),
{
    reveal(write_spec);
    let data = data_bytes(rows);
    let index = index_of(rows);
    let index_part = index_block(index);
    let filter = table_filter(rows);
    let filter_part = filter_block(filter);
    let index_at = data.len();
    let filter_at = index_at + index_part.len();
    law_footer_round_trip(path, data + index_part + filter_part, index_at, filter_at);
    lemma_le_len(index.len(), 4);
    lemma_le_len(filter.bit_len as nat, 8);
    assert(file.skip(filter_at as int) =~= filter_part + footer_bytes(index_at, filter_at));
    assert(file.skip(index_at as int) =~= index_part + file.skip(filter_at as int));
}

/// The keys of an index stand in the order of the rows, and are not empty.
proof fn lemma_written_index(rows: Seq<(Seq<u8>, Option<Seq<u8>>)>)
    requires
        sorted(rows),
        data_error(rows) is None,
    ensures
        sorted(index_of(rows)),
        forall|i: int| 0 <= i < rows.len() ==> (#[trigger] index_of(rows)[i]).0.len() > 0,
{
    let index = index_of(rows);
    assert forall|i: int| 0 <= i < rows.len() implies (#[trigger] index[i]).0.len() > 0 by {
        lemma_no_data_error(rows, i);
    }
    assert forall|i: int, j: int| 0 <= i < j < index.len() implies lex_lt(
        #[trigger] index[i].0,
        #[trigger] index[j].0,
    ) by {
        assert(lex_lt(rows[i].0, rows[j].0));
    }
}

/// A table is read back from its file: opening what was written for some rows
/// gives a table with a filter, under the number in its path, whose file holds
/// those rows.
pub proof fn law_written_table_opens(
    path: Seq<char>,
    rows: Seq<(Seq<u8>, Option<Seq<u8>>)>,
    file: Seq<u8>,
)
    requires
        write_spec(rows) == Ok::<Seq<u8>, ErrorView>(file),
        file.len() <= u64::MAX,
        id_spec(path) is Ok,
    ensures
        table_spec(path, file) == Ok::<TableView, ErrorView>(
            TableView {
                path,
                id: id_spec(path)->Ok_0,
                index: index_of(rows),
                filter: Some(table_filter(rows)),
            },
        ),
        holds_rows(table_spec(path, file)->Ok_0, file, rows),
{
    let index = index_of(rows);
    let filter = table_filter(rows);
    let keys = keys_of(rows);
    let index_at = data_bytes(rows).len();
    let filter_at = index_at + index_block(index).len();
    let table = TableView { path, id: id_spec(path)->Ok_0, index, filter: Some(filter) };
    reveal(write_spec);
    assert(table_spec(path, file) == Ok::<TableView, ErrorView>(table)) by {
        reveal(table_spec);
        lemma_written_parts(path, rows, file);
        lemma_written_index(rows);
        law_no_false_negatives(new_spec(rows.len()), keys);
        law_index_round_trip(index, file.skip(filter_at as int));
        law_filter_round_trip(filter, footer_bytes(index_at, filter_at));
    }
    lemma_written_index(rows);
    law_no_false_negatives(new_spec(rows.len()), keys);
    assert forall|i: int| 0 <= i < rows.len() implies {
        &&& (#[trigger] table.index[i]).0 == rows[i].0
        &&& row_at(file, table.index[i].1) == Ok::<(Seq<u8>, Option<Seq<u8>>), ErrorView>(rows[i])
        &&& table.filter is Some ==> might_contain_spec(table.filter->0, rows[i].0)
    } by {
        lemma_written_row(rows, file, i);
        assert(keys[i] == rows[i].0);
    }
}

/// The rows that part of an index points at.
proof fn lemma_held_rows(
    table: TableView,
    file: Seq<u8>,
    rows: Seq<(Seq<u8>, Option<Seq<u8>>)>,
    from: int,
    to: int,
)
    requires
        holds_rows(table, file, rows),
        0 <= from <= to <= rows.len(),
    ensures
        read_rows(file, table.index.subrange(from, to)) == Ok::<
            Seq<(Seq<u8>, Option<Seq<u8>>)>,
            ErrorView,
        >(rows.subrange(from, to)),
    decreases to - from,
{
    let part = table.index.subrange(from, to);
    if from == to {
        assert(rows.subrange(from, to) =~= Seq::empty());
    } else {
        lemma_held_rows(table, file, rows, from, to - 1);
        assert(part.drop_last() =~= table.index.subrange(from, to - 1));
        assert(part.last() == table.index[to - 1]);
        assert(rows.subrange(from, to) =~= rows.subrange(from, to - 1).push(rows[to - 1]));
    }
}

/// All rows that a file holds are read.
pub proof fn law_entries_are_the_rows(
    table: TableView,
    file: Seq<u8>,
    rows: Seq<(Seq<u8>, Option<Seq<u8>>)>,
)
    requires
        holds_rows(table, file, rows),
    ensures
        read_rows(file, table.index) == Ok::<Seq<(Seq<u8>, Option<Seq<u8>>)>, ErrorView>(rows),
{
    lemma_held_rows(table, file, rows, 0, rows.len() as int);
    assert(table.index.subrange(0, rows.len() as int) =~= table.index);
    assert(rows.subrange(0, rows.len() as int) =~= rows);
}

/// Looking a key up finds its record if the rows have one, and nothing if they
/// have none.
pub proof fn law_get_finds_the_record(
    table: TableView,
    file: Seq<u8>,
    rows: Seq<(Seq<u8>, Option<Seq<u8>>)>,
    key: Seq<u8>,
)
    requires
        holds_rows(table, file, rows),
    ensures
        get_spec(table, file, key) == Ok::<Option<Option<Seq<u8>>>, ErrorView>(
            if records_of(rows).contains_key(key) {
                Some(records_of(rows)[key])
            } else {
                None
            },
        ),
{
    lemma_records_of_sorted(rows);
    lemma_records_of_sorted(table.index);
    if has_key(rows, key) {
        let i = choose|i: int| 0 <= i < rows.len() && #[trigger] rows[i].0 == key;
        assert(table.index[i].0 == key);
    } else if has_key(table.index, key) {
        let i = choose|i: int| 0 <= i < table.index.len() && #[trigger] table.index[i].0 == key;
        assert(rows[i].0 == key);
    }
}

/// A scan reads the rows whose keys have the prefix.
pub proof fn law_scan_reads_the_prefix(
    table: TableView,
    file: Seq<u8>,
    rows: Seq<(Seq<u8>, Option<Seq<u8>>)>,
    prefix: Seq<u8>,
    limit: nat,
)
    requires
        holds_rows(table, file, rows),
    ensures
        with_prefix(table.index, prefix).len() == with_prefix(rows, prefix).len(),
        read_rows(file, at_most(with_prefix(table.index, prefix), limit)) == Ok::<
            Seq<(Seq<u8>, Option<Seq<u8>>)>,
            ErrorView,
        >(at_most(with_prefix(rows, prefix), limit)),
{
    let index = table.index;
    let (from, to) = lemma_prefix_bounds(rows, prefix);
    assert forall|i: int| 0 <= i < from implies lex_lt(#[trigger] index[i].0, prefix) by {
        assert(lex_lt(rows[i].0, prefix));
    }
    assert forall|i: int| from <= i < index.len() implies !lex_lt(
        #[trigger] index[i].0,
        prefix,
    ) by {
        assert(!lex_lt(rows[i].0, prefix));
    }
    assert forall|i: int| from <= i < to implies prefix.is_prefix_of(#[trigger] index[i].0) by {
        assert(prefix.is_prefix_of(rows[i].0));
    }
    if to < rows.len() {
        assert(index[to].0 == rows[to].0);
    }
    lemma_prefix_run(rows, prefix, from, to);
    lemma_prefix_run(index, prefix, from, to);
    let n = if to - from <= limit {
        to - from
    } else {
        limit as int
    };
    lemma_held_rows(table, file, rows, from, from + n);
    assert(at_most(index.subrange(from, to), limit) =~= index.subrange(from, from + n));
    assert(at_most(rows.subrange(from, to), limit) =~= rows.subrange(from, from + n));
}

/// Where the keys with a prefix begin and end in sorted rows.
proof fn lemma_prefix_bounds(rows: Seq<(Seq<u8>, Option<Seq<u8>>)>, prefix: Seq<u8>) -> (run: (
    int,
    int,
))
    requires
        sorted(rows),
    ensures
        0 <= run.0 <= run.1 <= rows.len(),
        forall|i: int| 0 <= i < run.0 ==> lex_lt(#[trigger] rows[i].0, prefix),
        forall|i: int| run.0 <= i < rows.len() ==> !lex_lt(#[trigger] rows[i].0, prefix),
        forall|i: int| run.0 <= i < run.1 ==> prefix.is_prefix_of(#[trigger] rows[i].0),
        run.1 < rows.len() ==> !prefix.is_prefix_of(rows[run.1].0),
    decreases rows.len(),
{
    if rows.len() == 0 {
        (0, 0)
    } else {
        let front = rows.drop_last();
        let n = front.len() as int;
        lemma_sorted_part(rows, 0, n);
        assert(front =~= rows.subrange(0, n));
        let (from, to) = lemma_prefix_bounds(front, prefix);
        let last = rows[n].0;
        assert(forall|i: int| 0 <= i < n ==> #[trigger] front[i] == rows[i]);
        if lex_lt(last, prefix) {
            assert forall|i: int| 0 <= i < n implies lex_lt(#[trigger] rows[i].0, prefix) by {
                lemma_lex_transitive(rows[i].0, last, prefix);
            }
            if from < n {
                assert(lex_lt(rows[from].0, prefix));
                assert(!lex_lt(front[from].0, prefix));
            }
            (n + 1, n + 1)
        } else if to == n && prefix.is_prefix_of(last) {
            assert forall|i: int| from <= i < n implies !lex_lt(#[trigger] rows[i].0, prefix) by {
                assert(!lex_lt(front[i].0, prefix));
            }
            assert forall|i: int| 0 <= i < from implies lex_lt(#[trigger] rows[i].0, prefix) by {
                assert(lex_lt(front[i].0, prefix));
            }
            assert forall|i: int| from <= i < n implies prefix.is_prefix_of(
                #[trigger] rows[i].0,
            ) by {
                assert(prefix.is_prefix_of(front[i].0));
            }
            (from, n + 1)
        } else {
            assert forall|i: int| from <= i < n implies !lex_lt(#[trigger] rows[i].0, prefix) by {
                assert(!lex_lt(front[i].0, prefix));
            }
            assert forall|i: int| 0 <= i < from implies lex_lt(#[trigger] rows[i].0, prefix) by {
                assert(lex_lt(front[i].0, prefix));
            }
            assert forall|i: int| from <= i < to implies prefix.is_prefix_of(
                #[trigger] rows[i].0,
            ) by {
                assert(prefix.is_prefix_of(front[i].0));
            }
            (from, to)
        }
    }
}

// Which rows have a table, and what its file is.

/// Rows that are not empty, whose keys strictly increase and are not empty, whose keys
/// and values are no longer than four bytes count, and that are few enough for the
/// filter, with ten bits for each, to have no more bytes than that, have a table file.
pub proof fn law_rows_have_a_table(rows: Seq<(Seq<u8>, Option<Seq<u8>>)>)
    requires
        rows.len() > 0,
        forall|i: int, j: int|
            0 <= i < j < rows.len() ==> lex_lt(#[trigger] rows[i].0, #[trigger] rows[j].0),
        forall|i: int|
            0 <= i < rows.len() ==> {
                &&& 0 < (#[trigger] rows[i]).0.len() <= 0xffff_ffff
                &&& rows[i].1 matches Some(value) ==> value.len() <= 0xffff_ffff
            },
        10 * rows.len() <= 8 * 0xffff_ffff,
    ensures
        write_spec(rows) == Ok::<Seq<u8>, ErrorView>(table_bytes(rows)),
{
    reveal(write_spec);
    lemma_rows_have_bytes(rows);
    let index = index_of(rows);
    assert forall|i: int| 0 <= i < index.len() implies (#[trigger] index[i]).0.len()
        <= 0xffff_ffff by {
        assert(index[i].0 == rows[i].0);
    }
    law_index_has_bytes(index);
    lemma_filter_of_a_table(rows);
    law_filter_has_bytes(table_filter(rows));
}

/// Rows of which each has bytes are refused for none of them.
proof fn lemma_rows_have_bytes(rows: Seq<(Seq<u8>, Option<Seq<u8>>)>)
    requires
        forall|i: int|
            0 <= i < rows.len() ==> {
                &&& 0 < (#[trigger] rows[i]).0.len() <= 0xffff_ffff
                &&& rows[i].1 matches Some(value) ==> value.len() <= 0xffff_ffff
            },
    ensures
        data_error(rows) is None,
    decreases rows.len(),
{
    if rows.len() > 0 {
        let front = rows.drop_last();
        assert forall|i: int| 0 <= i < front.len() implies 0 < (#[trigger] front[i]).0.len()
            <= 0xffff_ffff && (front[i].1 matches Some(value) ==> value.len() <= 0xffff_ffff) by {
            assert(front[i] == rows[i]);
        }
        lemma_rows_have_bytes(front);
        assert(rows.last() == rows[rows.len() - 1]);
        law_row_has_bytes(rows.last());
    }
}

/// The filter of a table has ten bits for each row, and at least 64, and seven hashes.
proof fn lemma_filter_of_a_table(rows: Seq<(Seq<u8>, Option<Seq<u8>>)>)
    requires
        10 * rows.len() <= 0xffff_ffff_ffff_ffff,
    ensures
        table_filter(rows).wf(),
        table_filter(rows).hash_count == 7,
        table_filter(rows).bit_len == if 10 * rows.len() < 64 {
            64
        } else {
            10 * rows.len()
        },
        8 * (table_filter(rows).bits.len() - 1) < table_filter(rows).bit_len <= 8
            * table_filter(rows).bits.len(),
        forall|i: int|
            0 <= i < rows.len() ==> might_contain_spec(
                table_filter(rows),
                (#[trigger] rows[i]).0,
            ),
{
    let filter = new_spec(rows.len());
    let keys = keys_of(rows);
    law_new_filter(rows.len(), Seq::empty());
    law_parts_of_a_filter(filter);
    law_no_false_negatives(filter, keys);
    law_parts_of_a_filter(table_filter(rows));
    assert forall|i: int| 0 <= i < rows.len() implies might_contain_spec(
        table_filter(rows),
        (#[trigger] rows[i]).0,
    ) by {
        assert(keys[i] == rows[i].0);
    }
}

/// The rows without a table, and the reason of each: there are none; two of them are out
/// of order; one has no bytes, and the first such gives the reason; or there are more
/// than four bytes count.
pub proof fn law_rows_without_a_table(rows: Seq<(Seq<u8>, Option<Seq<u8>>)>)
    ensures
        rows.len() == 0 ==> write_spec(rows) == Err::<Seq<u8>, ErrorView>(
            ErrorView::InvalidInput("cannot write an empty SSTable"@),
        ),
        (exists|i: int, j: int|
            0 <= i < j < rows.len() && !lex_lt(#[trigger] rows[i].0, #[trigger] rows[j].0))
            ==> write_spec(rows) == Err::<Seq<u8>, ErrorView>(
            ErrorView::InvalidInput("SSTable entries must be strictly sorted by key"@),
        ),
        sorted(rows) ==> forall|i: int|
            0 <= i < rows.len() && encode_data_spec(#[trigger] rows[i]) is Err && (forall|j: int|
                0 <= j < i ==> encode_data_spec(#[trigger] rows[j]) is Ok) ==> write_spec(rows)
                == Err::<Seq<u8>, ErrorView>(encode_data_spec(rows[i])->Err_0),
        sorted(rows) && rows.len() > 0xffff_ffff && (forall|i: int|
            0 <= i < rows.len() ==> encode_data_spec(#[trigger] rows[i]) is Ok) ==> write_spec(rows)
            == Err::<Seq<u8>, ErrorView>(
            ErrorView::InvalidInput("too many SSTable index entries"@),
        ),
{
    reveal(write_spec);
    if sorted(rows) {
        assert forall|i: int|
            0 <= i < rows.len() && encode_data_spec(#[trigger] rows[i]) is Err && (forall|j: int|
                0 <= j < i ==> encode_data_spec(#[trigger] rows[j]) is Ok) implies write_spec(rows)
            == Err::<Seq<u8>, ErrorView>(encode_data_spec(rows[i])->Err_0) by {
            lemma_first_reason(rows, i);
        }
        if rows.len() > 0xffff_ffff && (forall|i: int|
            0 <= i < rows.len() ==> encode_data_spec(#[trigger] rows[i]) is Ok) {
            lemma_no_reason(rows);
            law_index_has_bytes(index_of(rows));
        }
    }
}

/// Rows that all have bytes give no reason.
proof fn lemma_no_reason(rows: Seq<(Seq<u8>, Option<Seq<u8>>)>)
    requires
        forall|i: int| 0 <= i < rows.len() ==> encode_data_spec(#[trigger] rows[i]) is Ok,
    ensures
        data_error(rows) is None,
    decreases rows.len(),
{
    if rows.len() > 0 {
        let front = rows.drop_last();
        assert forall|i: int| 0 <= i < front.len() implies encode_data_spec(
            #[trigger] front[i],
        ) is Ok by {
            assert(front[i] == rows[i]);
        }
        lemma_no_reason(front);
        assert(rows.last() == rows[rows.len() - 1]);
    }
}

/// The first row without bytes gives the reason.
proof fn lemma_first_reason(rows: Seq<(Seq<u8>, Option<Seq<u8>>)>, i: int)
    requires
        0 <= i < rows.len(),
        encode_data_spec(rows[i]) is Err,
        forall|j: int| 0 <= j < i ==> encode_data_spec(#[trigger] rows[j]) is Ok,
    ensures
        data_error(rows) == Some(encode_data_spec(rows[i])->Err_0),
{
    let part = rows.take(i + 1);
    assert(part.drop_last() =~= rows.take(i));
    assert(part.last() == rows[i]);
    assert forall|j: int| 0 <= j < rows.take(i).len() implies encode_data_spec(
        #[trigger] rows.take(i)[j],
    ) is Ok by {
        assert(rows.take(i)[j] == rows[j]);
    }
    lemma_no_reason(rows.take(i));
    lemma_data_error_stays(rows, i + 1);
}

/// How many bytes rows take, one behind the other: nine for each, and those of its key
/// and its value.
pub open spec fn data_size(rows: Seq<(Seq<u8>, Option<Seq<u8>>)>) -> int {
    rows.fold_left(
        0int,
        |sum: int, row: (Seq<u8>, Option<Seq<u8>>)|
            sum + 9 + row.0.len() + (match row.1 {
                Some(value) => value.len() as int,
                None => 0int,
            }),
    )
}

/// How many bytes the index of rows takes: four for their number, and for each twelve and
/// those of its key.
pub open spec fn index_size(rows: Seq<(Seq<u8>, Option<Seq<u8>>)>) -> int {
    rows.fold_left(4int, |sum: int, row: (Seq<u8>, Option<Seq<u8>>)| sum + 12 + row.0.len())
}

/// The bytes of rows are as many as their sizes sum up to.
proof fn lemma_data_size(rows: Seq<(Seq<u8>, Option<Seq<u8>>)>)
    ensures
        data_bytes(rows).len() == data_size(rows),
    decreases rows.len(),
{
    if rows.len() > 0 {
        let row = rows.last();
        lemma_data_size(rows.drop_last());
        lemma_le_len(row.0.len(), 4);
        lemma_le_len(value_bytes(row.1).len(), 4);
    }
}

/// The bytes of the index entries of rows, wherever the rows begin.
proof fn lemma_index_size(
    rows: Seq<(Seq<u8>, Option<Seq<u8>>)>,
    index: Seq<(Seq<u8>, u64)>,
)
    requires
        index.len() == rows.len(),
        forall|i: int| 0 <= i < rows.len() ==> (#[trigger] index[i]).0 == rows[i].0,
    ensures
        index_block(index).len() == index_size(rows),
    decreases rows.len(),
{
    lemma_le_len(index.len(), 4);
    if rows.len() > 0 {
        let front = index.drop_last();
        assert forall|i: int| 0 <= i < front.len() implies (#[trigger] front[i]).0
            == rows.drop_last()[i].0 by {
            assert(front[i] == index[i]);
        }
        lemma_index_size(rows.drop_last(), front);
        lemma_le_len(front.len(), 4);
        let entry = index.last();
        assert(entry == index[index.len() - 1]);
        lemma_le_len(entry.0.len(), 4);
        lemma_le_len(entry.1 as nat, 8);
    }
}

/// The file of a table, byte by byte: the rows, one behind the other; the index, which
/// has for each row its key and where it begins; the filter, with ten bits for each row
/// and at least 64, and seven hashes, which claims every key; and, as the last 24 bytes,
/// where the index begins, where the filter begins, and the number that files of the
/// second version end in.
pub proof fn law_file_of_a_table(rows: Seq<(Seq<u8>, Option<Seq<u8>>)>, file: Seq<u8>)
    requires
        write_spec(rows) == Ok::<Seq<u8>, ErrorView>(file),
        file.len() <= 0xffff_ffff_ffff_ffff,
    ensures
        ({
            let n = file.len() as int;
            let d = data_size(rows);
            let x = index_size(rows);
            let index = Seq::new(
                rows.len(),
                |i: int| (rows[i].0, data_size(rows.take(i)) as u64),
            );
            let filter = table_filter(rows);
            &&& n == d + x + 16 + filter.bits.len() + 24
            &&& forall|i: int|
                0 <= i < rows.len() ==> is_data_record(
                    file.subrange(data_size(rows.take(i)), data_size(rows.take(i + 1))),
                    #[trigger] rows[i],
                )
            &&& file.subrange(d, d + x) == index_block(index)
            &&& is_filter_block(file.subrange(d + x, n - 24), filter)
            &&& filter.hash_count == 7
            &&& filter.bit_len == if 10 * rows.len() < 64 {
                64
            } else {
                10 * rows.len()
            }
            &&& forall|i: int|
                0 <= i < rows.len() ==> might_contain_spec(filter, (#[trigger] rows[i]).0)
            &&& holds_u64(file, n - 24, d as nat)
            &&& holds_u64(file, n - 16, (d + x) as nat)
            &&& holds_u64(file, n - 8, 0x4b56_5353_5442_4c32)
        }),
{
    lemma_parts_of_a_file(rows, file);
    lemma_filter_of_a_file(rows, file);
    assert forall|i: int| 0 <= i < rows.len() implies is_data_record(
        file.subrange(data_size(rows.take(i)), data_size(rows.take(i + 1))),
        #[trigger] rows[i],
    ) by {
        lemma_row_of_a_file(rows, file, i);
    }
    lemma_plain_index(rows);
}

/// The filter of a written file, and its block.
proof fn lemma_filter_of_a_file(rows: Seq<(Seq<u8>, Option<Seq<u8>>)>, file: Seq<u8>)
    requires
        write_spec(rows) == Ok::<Seq<u8>, ErrorView>(file),
        file.len() <= u64::MAX,
    ensures
        table_filter(rows).hash_count == 7,
        table_filter(rows).bit_len == if 10 * rows.len() < 64 {
            64
        } else {
            10 * rows.len()
        },
        forall|i: int|
            0 <= i < rows.len() ==> might_contain_spec(
                table_filter(rows),
                (#[trigger] rows[i]).0,
            ),
        is_filter_block(filter_block(table_filter(rows)), table_filter(rows)),
        filter_block(table_filter(rows)).len() == 16 + table_filter(rows).bits.len(),
{
    reveal(write_spec);
    assert(rows.len() <= 0xffff_ffff);
    lemma_filter_of_a_table(rows);
    law_filter_has_bytes(table_filter(rows));
}

/// The index of rows, its offsets in plain numbers.
proof fn lemma_plain_index(rows: Seq<(Seq<u8>, Option<Seq<u8>>)>)
    ensures
        index_of(rows) == Seq::new(
            rows.len(),
            |i: int| (rows[i].0, data_size(rows.take(i)) as u64),
        ),
{
    let index = index_of(rows);
    let plain = Seq::new(rows.len(), |i: int| (rows[i].0, data_size(rows.take(i)) as u64));
    assert(index =~= plain) by {
        assert forall|i: int| 0 <= i < rows.len() implies #[trigger] index[i] == plain[i] by {
            lemma_data_size(rows.take(i));
        }
    }
}

/// A row stands in a written file where the rows before it end.
proof fn lemma_row_of_a_file(rows: Seq<(Seq<u8>, Option<Seq<u8>>)>, file: Seq<u8>, i: int)
    requires
        write_spec(rows) == Ok::<Seq<u8>, ErrorView>(file),
        0 <= i < rows.len(),
    ensures
        is_data_record(
            file.subrange(data_size(rows.take(i)), data_size(rows.take(i + 1))),
            rows[i],
        ),
{
    let rest = lemma_data_split(rows, i);
    let front = rows.take(i);
    let upto = rows.take(i + 1);
    let record = data_record(rows[i]);
    let behind = lemma_file_begins(rows, file);
    assert(upto.drop_last() =~= front);
    assert(upto.last() == rows[i]);
    lemma_data_size(front);
    lemma_data_size(upto);
    lemma_no_data_error(rows, i);
    law_row_has_bytes(rows[i]);
    lemma_part_between(data_bytes(front), record, rest, behind);
}

/// A written file begins with the bytes of the rows, which all have bytes.
proof fn lemma_file_begins(
    rows: Seq<(Seq<u8>, Option<Seq<u8>>)>,
    file: Seq<u8>,
) -> (behind: Seq<u8>)
    requires
        write_spec(rows) == Ok::<Seq<u8>, ErrorView>(file),
    ensures
        data_error(rows) is None,
        file == data_bytes(rows) + behind,
{
    reveal(write_spec);
    let data = data_bytes(rows);
    let behind = file.skip(data.len() as int);
    assert(file =~= data + behind);
    behind
}

/// A part of a file between what stands before it and what stands behind.
proof fn lemma_part_between(before: Seq<u8>, part: Seq<u8>, rest: Seq<u8>, behind: Seq<u8>)
    ensures
        (before + (part + rest) + behind).subrange(
            before.len() as int,
            (before.len() + part.len()) as int,
        ) == part,
{
    assert((before + (part + rest) + behind).subrange(
        before.len() as int,
        (before.len() + part.len()) as int,
    ) =~= part);
}

/// The other parts of a written file, and where they stand.
proof fn lemma_parts_of_a_file(rows: Seq<(Seq<u8>, Option<Seq<u8>>)>, file: Seq<u8>)
    requires
        write_spec(rows) == Ok::<Seq<u8>, ErrorView>(file),
        file.len() <= u64::MAX,
    ensures
        ({
            let n = file.len() as int;
            let d = data_size(rows);
            let x = index_size(rows);
            &&& n == d + x + filter_block(table_filter(rows)).len() + 24
            &&& file.subrange(d, d + x) == index_block(index_of(rows))
            &&& file.subrange(d + x, n - 24) == filter_block(table_filter(rows))
            &&& holds_u64(file, n - 24, d as nat)
            &&& holds_u64(file, n - 16, (d + x) as nat)
            &&& holds_u64(file, n - 8, 0x4b56_5353_5442_4c32)
        }),
{
    let n = file.len() as int;
    let d = data_size(rows);
    let x = index_size(rows);
    let data = data_bytes(rows);
    let index = index_block(index_of(rows));
    let block = filter_block(table_filter(rows));
    let footer = footer_bytes(data.len(), data.len() + index.len());
    assert(file == data + index + block + footer) by {
        reveal(write_spec);
    }
    lemma_data_size(rows);
    lemma_index_size(rows, index_of(rows));
    lemma_four_parts(data, index, block, footer);
    law_bytes_of_a_footer(d as nat, (d + x) as nat);
    lemma_holds_behind(file, footer, n - 24, 0, d as nat);
    lemma_holds_behind(file, footer, n - 24, 8, (d + x) as nat);
    lemma_holds_behind(file, footer, n - 24, 16, 0x4b56_5353_5442_4c32);
}

/// Four parts of a file, and where they stand.
proof fn lemma_four_parts(a: Seq<u8>, b: Seq<u8>, c: Seq<u8>, d: Seq<u8>)
    ensures
        ({
            let file = a + b + c + d;
            let n = file.len() as int;
            &&& n == a.len() + b.len() + c.len() + d.len()
            &&& file.subrange(a.len() as int, (a.len() + b.len()) as int) == b
            &&& file.subrange((a.len() + b.len()) as int, n - d.len()) == c
            &&& file.skip(n - d.len()) == d
        }),
{
    let file = a + b + c + d;
    let n = file.len() as int;
    assert(file.subrange(a.len() as int, (a.len() + b.len()) as int) =~= b);
    assert(file.subrange((a.len() + b.len()) as int, n - d.len()) =~= c);
    assert(file.skip(n - d.len()) =~= d);
}

/// A number in the last bytes of a file.
proof fn lemma_holds_behind(file: Seq<u8>, end: Seq<u8>, start: int, at: int, n: nat)
    requires
        0 <= start,
        start + end.len() == file.len(),
        0 <= at,
        at + 8 <= end.len(),
        file.skip(start) == end,
        holds_u64(end, at, n),
    ensures
        holds_u64(file, start + at, n),
{
    let part = file.skip(start);
    assert(file[start + at] == part[at]);
    assert(file[start + at + 1] == part[at + 1]);
    assert(file[start + at + 2] == part[at + 2]);
    assert(file[start + at + 3] == part[at + 3]);
    assert(file[start + at + 4] == part[at + 4]);
    assert(file[start + at + 5] == part[at + 5]);
    assert(file[start + at + 6] == part[at + 6]);
    assert(file[start + at + 7] == part[at + 7]);
}

/// The metadata of a table: its number, how many rows it has, and the first and the last
/// of their keys.
pub proof fn law_metadata<V>(id: u64, rows: Seq<(Seq<u8>, V)>)
    requires
        rows.len() > 0,
    ensures
        metadata_of(id, rows).id == id,
        metadata_of(id, rows).entry_count == rows.len(),
        metadata_of(id, rows).smallest_key == rows[0].0,
        metadata_of(id, rows).largest_key == rows[rows.len() - 1].0,
{
}

/// The number of a table is the one that its file is named by: the digits before the
/// extension. A file whose name has another character there, or a number that is too
/// large, has none.
pub proof fn law_number_in_a_path(dir: Seq<char>, stem: Seq<char>, ext: Seq<char>)
    requires
        dir.len() == 0 || dir.last() == '/',
        stem.len() > 0,
        ext.len() > 0,
        !stem.contains('/'),
        !ext.contains('/'),
        !ext.contains('.'),
        stem[0] != '+',
    ensures
        ({
            let path = dir + stem.push('.') + ext;
            &&& all_digits(stem) && place_value(stem) <= 0xffff_ffff_ffff_ffff ==> id_spec(path)
                == Ok::<u64, ErrorView>(place_value(stem) as u64)
            &&& !(all_digits(stem) && place_value(stem) <= 0xffff_ffff_ffff_ffff) ==> id_spec(path)
                == Err::<u64, ErrorView>(
                ErrorView::CorruptSstable("invalid SSTable id in "@ + path),
            )
        }),
{
    law_parts_of_a_path(dir, stem, ext);
    law_parsed_number(stem);
    if all_digits(stem) {
        law_value_of_digits(stem);
    }
}

/// A table finds where its row of a key begins exactly if its index has the key and its
/// filter, if there is one, claims it.
pub proof fn law_find(table: TableView, key: Seq<u8>, offset: u64)
    requires
        forall|i: int, j: int|
            0 <= i < j < table.index.len() ==> lex_lt(
                #[trigger] table.index[i].0,
                #[trigger] table.index[j].0,
            ),
    ensures
        find_spec(table, key) == Some(offset) <==> table.index.contains((key, offset)) && (
        table.filter is Some ==> might_contain_spec(table.filter->0, key)),
{
    lemma_records_of_sorted(table.index);
    if table.index.contains((key, offset)) {
        let i = choose|i: int| 0 <= i < table.index.len() && table.index[i] == (key, offset);
        assert(table.index[i].0 == key);
        assert(records_of(table.index)[table.index[i].0] == offset);
    }
    if has_key(table.index, key) {
        let i = choose|i: int| 0 <= i < table.index.len() && #[trigger] table.index[i].0 == key;
        assert(records_of(table.index)[table.index[i].0] == table.index[i].1);
        assert(table.index[i] == (key, records_of(table.index)[key]));
    }
}

/// What a table says of a key is the record of the row that it finds; nothing where it
/// finds none.
pub proof fn law_get_reads_what_is_found(table: TableView, file: Seq<u8>, key: Seq<u8>)
    ensures
        find_spec(table, key) is None ==> get_spec(table, file, key) == Ok::<
            Option<Option<Seq<u8>>>,
            ErrorView,
        >(None),
        find_spec(table, key) matches Some(offset) ==> match row_at(file, offset) {
            Ok(row) => get_spec(table, file, key) == Ok::<Option<Option<Seq<u8>>>, ErrorView>(
                Some(row.1),
            ),
            Err(error) => get_spec(table, file, key) == Err::<Option<Option<Seq<u8>>>, ErrorView>(
                error,
            ),
        },
{
}

/// The row at an offset is the one that the bytes from there on say.
pub proof fn law_row_at_an_offset(file: Seq<u8>, offset: u64)
    ensures
        offset <= file.len() ==> row_at(file, offset) == decode_data_spec(
            file.skip(offset as int),
        ),
        offset > file.len() ==> row_at(file, offset) == decode_data_spec(Seq::empty()),
{
}

/// Reading rows gives the row that each index entry leads to, in their order; or, if one
/// of them cannot be read, what is wrong with the first such.
pub proof fn law_rows_that_are_read(file: Seq<u8>, index: Seq<(Seq<u8>, u64)>)
    ensures
        read_rows(file, index) matches Ok(rows) ==> rows.len() == index.len() && forall|i: int|
            0 <= i < index.len() ==> row_at(file, (#[trigger] index[i]).1) == Ok::<
                (Seq<u8>, Option<Seq<u8>>),
                ErrorView,
            >(rows[i]),
        read_rows(file, index) matches Err(error) ==> exists|i: int|
            0 <= i < index.len() && row_at(file, (#[trigger] index[i]).1) == Err::<
                (Seq<u8>, Option<Seq<u8>>),
                ErrorView,
            >(error) && forall|j: int|
                0 <= j < i ==> row_at(file, (#[trigger] index[j]).1) is Ok,
    decreases index.len(),
{
    if index.len() > 0 {
        let front = index.drop_last();
        let last = index.len() - 1;
        law_rows_that_are_read(file, front);
        match read_rows(file, front) {
            Ok(before) => {
                assert forall|j: int| 0 <= j < last implies row_at(
                    file,
                    (#[trigger] index[j]).1,
                ) == Ok::<(Seq<u8>, Option<Seq<u8>>), ErrorView>(before[j]) by {
                    assert(front[j] == index[j]);
                }
                assert(index[last] == index.last());
                if let Ok(row) = row_at(file, index.last().1) {
                    let rows = before.push(row);
                    assert forall|i: int| 0 <= i < index.len() implies row_at(
                        file,
                        (#[trigger] index[i]).1,
                    ) == Ok::<(Seq<u8>, Option<Seq<u8>>), ErrorView>(rows[i]) by {
                        if i < last {
                            assert(rows[i] == before[i]);
                        }
                    }
                }
            },
            Err(error) => {
                let i = choose|i: int|
                    0 <= i < front.len() && row_at(file, (#[trigger] front[i]).1) == Err::<
                        (Seq<u8>, Option<Seq<u8>>),
                        ErrorView,
                    >(error) && forall|j: int|
                        0 <= j < i ==> row_at(file, (#[trigger] front[j]).1) is Ok;
                assert(index[i] == front[i]);
                assert forall|j: int| 0 <= j < i implies row_at(
                    file,
                    (#[trigger] index[j]).1,
                ) is Ok by {
                    assert(front[j] == index[j]);
                }
            },
        }
    }
}

/// How a table file is opened: by the number in its path, its footer, and the index and
/// the filter at the places that the footer gives, which lie in this order between the
/// beginning of the file and the footer; the index is not empty.
pub proof fn law_opening_a_file(path: Seq<char>, file: Seq<u8>, id: u64, footer: SstableFooter)
    requires
        id_spec(path) == Ok::<u64, ErrorView>(id),
        footer_spec(path, file) == Ok::<SstableFooter, ErrorView>(footer),
    ensures
        ({
            let opened = table_spec(path, file);
            let end = file.len() - footer.footer_len;
            let at = footer.index_offset as int;
            let filter_at = footer.bloom_filter_offset;
            let misplaced = filter_at is Some && (filter_at->0 <= at || filter_at->0 >= end);
            let index = decode_index_spec(file.skip(at));
            &&& at >= end ==> opened == Err::<TableView, ErrorView>(
                ErrorView::CorruptSstable(path + " has an invalid index offset"@),
            )
            &&& at < end && misplaced ==> opened == Err::<TableView, ErrorView>(
                ErrorView::CorruptSstable(path + " has an invalid Bloom filter offset"@),
            )
            &&& at < end && !misplaced && index is Err ==> opened == Err::<TableView, ErrorView>(
                index->Err_0,
            )
            &&& at < end && !misplaced && index is Ok && index->Ok_0.len() == 0 ==> opened == Err::<
                TableView,
                ErrorView,
            >(ErrorView::CorruptSstable(path + " contains an empty index"@))
            &&& at < end && !misplaced && index is Ok && index->Ok_0.len() > 0 ==> match filter_at {
                None => opened == Ok::<TableView, ErrorView>(
                    TableView { path, id, index: index->Ok_0, filter: None },
                ),
                Some(place) => match decode_filter_spec(file.skip(place as int)) {
                    Ok(filter) => opened == Ok::<TableView, ErrorView>(
                        TableView { path, id, index: index->Ok_0, filter: Some(filter) },
                    ),
                    Err(error) => opened == Err::<TableView, ErrorView>(error),
                },
            }
        }),
{
    reveal(table_spec);
}

/// A file whose path has no number is not opened, for that reason; nor is one whose
/// footer does not read.
pub proof fn law_files_that_are_not_opened(path: Seq<char>, file: Seq<u8>)
    ensures
        id_spec(path) matches Err(error) ==> table_spec(path, file) == Err::<TableView, ErrorView>(
            error,
        ),
        id_spec(path) is Ok && footer_spec(path, file) is Err ==> table_spec(path, file) == Err::<
            TableView,
            ErrorView,
        >(footer_spec(path, file)->Err_0),
{
    reveal(table_spec);
}

/// What is returned of a table is spoken of as it is.
pub proof fn law_view_of_results(
    metadata: SstableMetadata,
    written: Result<NewTable, StorageError>,
    got: Result<Option<ValueRecord>, StorageError>,
    read: Result<Vec<(Vec<u8>, ValueRecord)>, StorageError>,
)
    ensures
        metadata@.id == metadata.id.0,
        metadata@.entry_count == metadata.entry_count,
        metadata@.smallest_key == metadata.smallest_key@,
        metadata@.largest_key == metadata.largest_key@,
        written matches Ok(table) ==> write_outcome(written) == Ok::<Seq<u8>, ErrorView>(
            table.contents@,
        ),
        written matches Err(error) ==> write_outcome(written) == Err::<Seq<u8>, ErrorView>(error@),
        got matches Ok(Some(record)) ==> get_outcome(got) == Ok::<
            Option<Option<Seq<u8>>>,
            ErrorView,
        >(Some(record@)),
        got matches Ok(None) ==> get_outcome(got) == Ok::<Option<Option<Seq<u8>>>, ErrorView>(
            None,
        ),
        got matches Err(error) ==> get_outcome(got) == Err::<Option<Option<Seq<u8>>>, ErrorView>(
            error@,
        ),
        read matches Ok(rows) ==> rows_outcome(read) == Ok::<
            Seq<(Seq<u8>, Option<Seq<u8>>)>,
            ErrorView,
        >(rows_of(rows@)),
        read matches Err(error) ==> rows_outcome(read) == Err::<
            Seq<(Seq<u8>, Option<Seq<u8>>)>,
            ErrorView,
        >(error@),
{
}

/// The length of the file of a table.
pub proof fn lemma_file_length(rows: Seq<(Seq<u8>, Option<Seq<u8>>)>, file: Seq<u8>)
    requires
        write_spec(rows) == Ok::<Seq<u8>, ErrorView>(file),
        10 * rows.len() <= 8 * 0xffff_ffff,
    ensures
        file.len() <= data_size(rows) + index_size(rows) + 0xffff_ffff + 40,
{
    let data = data_bytes(rows);
    let index = index_block(index_of(rows));
    let block = filter_block(table_filter(rows));
    let footer = footer_bytes(data.len(), data.len() + index.len());
    assert(file == data + index + block + footer) by {
        reveal(write_spec);
    }
    lemma_data_size(rows);
    lemma_index_size(rows, index_of(rows));
    lemma_filter_of_a_table(rows);
    law_filter_has_bytes(table_filter(rows));
    lemma_le_len(data.len(), 8);
    lemma_le_len(data.len() + index.len(), 8);
    lemma_le_len(MAGIC_V2 as nat, 8);
}

/// A table is in order exactly if its index is not empty, has no more entries than four
/// bytes count, strictly increases by its keys and has no empty key, its filter is in
/// order if it has one, and its path has its number.
pub proof fn law_table_in_order(table: TableView)
    ensures
        table.wf() <==> {
            &&& 0 < table.index.len() <= 0xffff_ffff
            &&& forall|i: int, j: int|
                0 <= i < j < table.index.len() ==> lex_lt(
                    #[trigger] table.index[i].0,
                    #[trigger] table.index[j].0,
                )
            &&& forall|i: int|
                0 <= i < table.index.len() ==> (#[trigger] table.index[i]).0.len() > 0
            &&& table.filter is Some ==> table.filter->0.wf()
            &&& id_spec(table.path) == Ok::<u64, ErrorView>(table.id)
        },
{
}

/// The number in a path is the one that the stem of its last component is. A path without
/// such a stem, or whose stem is no number, has none.
pub proof fn law_number_of_another_path(path: Seq<char>)
    ensures
        file_stem_spec(path) is None ==> id_spec(path) == Err::<u64, ErrorView>(
            ErrorView::CorruptSstable("invalid SSTable path "@ + path),
        ),
        file_stem_spec(path) matches Some(stem) ==> match parse_u64_spec(stem) {
            Some(id) => id_spec(path) == Ok::<u64, ErrorView>(id),
            None => id_spec(path) == Err::<u64, ErrorView>(
                ErrorView::CorruptSstable("invalid SSTable id in "@ + path),
            ),
        },
{
}

} // verus!
