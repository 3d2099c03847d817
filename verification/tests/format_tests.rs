use kv_store::bytes::{compare, read_u32, read_u64, Order};
use kv_store::storage::memtable::ValueRecord;
use kv_store::storage::sstable::sstable_id_from_path;
use kv_store::storage::table_format::{read_data_record, record_span};
use kv_store::storage::wal::{checksum, decode_entry, encode_entry, MAX_RECORD_BYTES};
use kv_store::storage::{
    BloomFilter, CompactionConfig, IoError, IoErrorKind, SstableId, SstableReader, SstableWriter,
    StorageError, Wal, WalEntry, WalOp,
};
use kv_store::text::{extension, file_stem, parse_u64, push_decimal, push_fixed_decimal, text_of};

const PATH: &str = "t/00000000000000000005.sst";

fn message<T>(result: Result<T, StorageError>) -> String {
    match result {
        Ok(_) => panic!("expected an error"),
        Err(error) => error.message(),
    }
}

fn record(entry: &WalEntry) -> Vec<u8> {
    let mut log = Vec::new();
    assert_eq!(Wal::append(&mut log, entry).expect("append"), 0);
    log
}

fn rows() -> Vec<(Vec<u8>, ValueRecord)> {
    vec![
        (b"k".to_vec(), ValueRecord::Value(b"v".to_vec())),
        (b"m".to_vec(), ValueRecord::Tombstone),
    ]
}

/// The file of the rows above, in the second version.
fn file() -> Vec<u8> {
    let mut file = data();
    file.extend(index());
    file.extend([64, 0, 0, 0, 0, 0, 0, 0, 7, 0, 0, 0, 8, 0, 0, 0]);
    file.extend([3, 68, 10, 9, 32, 20, 64, 16]);
    file.extend([21, 0, 0, 0, 0, 0, 0, 0, 51, 0, 0, 0, 0, 0, 0, 0]);
    file.extend([50, 76, 66, 84, 83, 83, 86, 75]);
    file
}

fn data() -> Vec<u8> {
    let mut data = vec![1, 0, 0, 0, 1, 0, 0, 0, 1, b'k', b'v'];
    data.extend([1, 0, 0, 0, 0, 0, 0, 0, 2, b'm']);
    data
}

fn index() -> Vec<u8> {
    let mut index = vec![2, 0, 0, 0];
    index.extend([1, 0, 0, 0, b'k', 0, 0, 0, 0, 0, 0, 0, 0]);
    index.extend([1, 0, 0, 0, b'm', 11, 0, 0, 0, 0, 0, 0, 0]);
    index
}

/// The file of the rows above, in the first version.
fn file_v1() -> Vec<u8> {
    let mut file = data();
    file.extend(index());
    file.extend([21, 0, 0, 0, 0, 0, 0, 0]);
    file.extend([76, 66, 65, 84, 83, 83, 86, 75]);
    file
}

#[test]
fn checksums_are_crc32() {
    assert_eq!(checksum(b"123456789"), 0xcbf4_3926);
    assert_eq!(checksum(b""), 0);
}

#[test]
fn log_records_have_their_layout() {
    assert_eq!(
        record(&WalEntry::put(b"a", b"b")),
        vec![11, 0, 0, 0, 1, 1, 0, 0, 0, 1, 0, 0, 0, 97, 98, 37, 140, 205, 81]
    );
    assert_eq!(
        record(&WalEntry::delete(b"a")),
        vec![10, 0, 0, 0, 2, 1, 0, 0, 0, 0, 0, 0, 0, 97, 198, 253, 177, 202]
    );
}

#[test]
fn appending_returns_where_the_record_begins() {
    let put = WalEntry::put(b"alpha", b"one");
    let delete = WalEntry::delete(b"alpha");
    let mut log = Vec::new();
    assert_eq!(Wal::append(&mut log, &put).expect("put"), 0);
    assert_eq!(log.len(), 25);
    assert_eq!(Wal::append(&mut log, &delete).expect("delete"), 25);
    let mut records = record(&put);
    records.extend(record(&delete));
    assert_eq!(log, records);

    let refused = WalEntry {
        op: WalOp::Put,
        key: Vec::new(),
        value: b"one".to_vec(),
    };
    assert_eq!(
        message(Wal::append(&mut log, &refused)),
        "invalid input: WAL entries require a non-empty key"
    );
    assert_eq!(log, records);
}

#[test]
fn a_delete_is_logged_without_its_value() {
    let entry = WalEntry {
        op: WalOp::Delete,
        key: b"a".to_vec(),
        value: b"ignored".to_vec(),
    };
    assert_eq!(record(&entry), record(&WalEntry::delete(b"a")));
}

#[test]
fn entries_come_back_from_their_payload() {
    for entry in [
        WalEntry::put(b"key", b"value"),
        WalEntry::put(b"key", b""),
        WalEntry::delete(b"key"),
    ] {
        let payload = encode_entry(&entry).expect("encode");
        assert_eq!(decode_entry(&payload).expect("decode"), entry);
    }
}

#[test]
fn payloads_that_do_not_decode() {
    assert_eq!(
        message(encode_entry(&WalEntry::put(b"", b"x"))),
        "invalid input: WAL entries require a non-empty key"
    );
    assert_eq!(
        message(decode_entry(&[1, 0, 0])),
        "corrupt WAL: record is too short to contain header"
    );
    assert_eq!(
        message(decode_entry(&[9, 1, 0, 0, 0, 0, 0, 0, 0, b'a'])),
        "corrupt WAL: unknown operation code 9"
    );
    assert_eq!(
        message(decode_entry(&[1, 2, 0, 0, 0, 0, 0, 0, 0, b'a'])),
        "corrupt WAL: record length 10 does not match encoded key/value lengths 11"
    );
    assert_eq!(
        message(decode_entry(&[1, 0, 0, 0, 0, 1, 0, 0, 0, b'a'])),
        "corrupt WAL: record contains an empty key"
    );
    assert_eq!(
        message(decode_entry(&[2, 1, 0, 0, 0, 1, 0, 0, 0, b'a', b'b'])),
        "corrupt WAL: delete record contains a value"
    );
}

#[test]
fn logs_that_do_not_recover() {
    let too_long = (MAX_RECORD_BYTES as u32 + 1).to_le_bytes();
    assert_eq!(
        message(Wal::recover(&too_long)),
        "corrupt WAL: record length 134217729 exceeds max 134217728"
    );
    let mut log = record(&WalEntry::put(b"a", b"b"));
    log[13] = b'x';
    assert_eq!(
        message(Wal::recover(&log)),
        "corrupt WAL: checksum mismatch: expected 1372425253, got 3402442045"
    );
    assert_eq!(Wal::recover(&[]).expect("empty log"), vec![]);
    assert_eq!(Wal::recover(&[1, 2, 3]).expect("torn log"), vec![]);
}

#[test]
fn filters_set_the_bits_of_a_key() {
    let mut filter = BloomFilter::new(3);
    assert_eq!(filter.bit_len(), 64);
    assert_eq!(filter.hash_count(), 7);
    filter.insert(b"alpha");
    assert_eq!(filter.bits(), &[64, 32, 128, 0, 2, 8, 4, 16]);
    assert_eq!(BloomFilter::new(100).bit_len(), 1000);
    assert_eq!(BloomFilter::new(100).bits().len(), 125);
}

#[test]
fn filters_from_parts() {
    let filter = BloomFilter::from_parts(64, 7, vec![64, 32, 128, 0, 2, 8, 4, 16]).expect("filter");
    assert!(filter.might_contain(b"alpha"));
    assert!(BloomFilter::from_parts(0, 7, vec![]).is_none());
    assert!(BloomFilter::from_parts(8, 0, vec![0]).is_none());
    assert!(BloomFilter::from_parts(9, 1, vec![0]).is_none());
    assert!(BloomFilter::from_parts(9, 1, vec![0, 0]).is_some());
}

#[test]
fn table_files_have_their_layout() {
    let table = SstableWriter::write(SstableId(5), &rows()).expect("write");
    assert_eq!(table.contents, file());
    assert_eq!(table.metadata.id, SstableId(5));
    assert_eq!(table.metadata.entry_count, 2);
    assert_eq!(table.metadata.smallest_key, b"k".to_vec());
    assert_eq!(table.metadata.largest_key, b"m".to_vec());
}

#[test]
fn tables_come_back_from_their_files() {
    let file = file();
    let reader = SstableReader::open(PATH, &file).expect("open");
    assert_eq!(reader.path(), PATH);
    assert_eq!(reader.metadata().id, SstableId(5));
    assert_eq!(reader.metadata().entry_count, 2);
    assert_eq!(reader.entries(&file).expect("entries"), rows());
    assert_eq!(
        reader.get(b"m", &file).expect("get"),
        Some(ValueRecord::Tombstone)
    );
    assert_eq!(reader.get(b"a", &file).expect("get"), None);
    assert_eq!(reader.get(b"z", &file).expect("get"), None);
    assert_eq!(reader.get(b"l", &file).expect("get"), None);
    assert_eq!(reader.find(b"m"), Some(11));
    assert_eq!(
        reader.scan_prefix(b"", 1, &file).expect("scan"),
        vec![(b"k".to_vec(), ValueRecord::Value(b"v".to_vec()))]
    );
    assert!(reader.has_prefix(b"k"));
    assert!(!reader.has_prefix(b"kk"));
}

#[test]
fn files_of_the_first_version_have_no_filter() {
    let file = file_v1();
    let reader = SstableReader::open(PATH, &file).expect("open");
    assert!(!reader.has_bloom_filter());
    assert!(reader.might_contain(b"anything"));
    assert_eq!(reader.entries(&file).expect("entries"), rows());
}

#[test]
fn rows_that_make_no_table() {
    let id = SstableId(1);
    let v = || ValueRecord::Value(b"v".to_vec());
    assert_eq!(
        message(SstableWriter::write(id, &[])),
        "invalid input: cannot write an empty SSTable"
    );
    assert_eq!(
        message(SstableWriter::write(id, &[(b"b".to_vec(), v()), (b"a".to_vec(), v())])),
        "invalid input: SSTable entries must be strictly sorted by key"
    );
    assert_eq!(
        message(SstableWriter::write(id, &[(b"a".to_vec(), v()), (b"a".to_vec(), v())])),
        "invalid input: SSTable entries must be strictly sorted by key"
    );
    assert_eq!(
        message(SstableWriter::write(id, &[(b"".to_vec(), v())])),
        "invalid input: SSTable keys must not be empty"
    );
}

#[test]
fn files_that_are_no_tables() {
    assert_eq!(
        message(SstableReader::open(PATH, &[0; 15])),
        format!("corrupt SSTable: {PATH} is too small to contain a footer")
    );
    assert_eq!(
        message(SstableReader::open(PATH, &[0; 16])),
        format!("corrupt SSTable: {PATH} has an invalid magic number")
    );
    let mut short = vec![0; 8];
    short.extend([50, 76, 66, 84, 83, 83, 86, 75]);
    assert_eq!(
        message(SstableReader::open(PATH, &short)),
        format!("corrupt SSTable: {PATH} is too small to contain a v2 footer")
    );
    let whole = file();
    let n = whole.len();
    let mut bad = whole.clone();
    bad[n - 24] = (n - 24) as u8;
    assert_eq!(
        message(SstableReader::open(PATH, &bad)),
        format!("corrupt SSTable: {PATH} has an invalid index offset")
    );
    let mut bad = whole.clone();
    bad[n - 16] = 21;
    assert_eq!(
        message(SstableReader::open(PATH, &bad)),
        format!("corrupt SSTable: {PATH} has an invalid Bloom filter offset")
    );
    let mut bad = whole.clone();
    bad[21] = 0;
    assert_eq!(
        message(SstableReader::open(PATH, &bad)),
        format!("corrupt SSTable: {PATH} contains an empty index")
    );
    let mut bad = whole.clone();
    bad[29] = b'z';
    assert_eq!(
        message(SstableReader::open(PATH, &bad)),
        "corrupt SSTable: index keys are not strictly sorted"
    );
    let mut bad = whole.clone();
    bad[25] = 0;
    assert_eq!(
        message(SstableReader::open(PATH, &bad)),
        "corrupt SSTable: index entry contains an empty key"
    );
    let mut bad = whole.clone();
    bad[21] = 200;
    assert!(SstableReader::open(PATH, &bad).is_err());
    let mut bad = whole.clone();
    bad[59] = 0;
    assert_eq!(
        message(SstableReader::open(PATH, &bad)),
        "corrupt SSTable: invalid Bloom filter block"
    );
    let mut bad = whole.clone();
    bad[63] = 255;
    assert_eq!(
        message(SstableReader::open(PATH, &bad)),
        "I/O error: failed to fill whole buffer"
    );
}

#[test]
fn rows_that_do_not_read() {
    let whole = file();
    let reader = SstableReader::open(PATH, &whole).expect("open");
    let mut bad = whole.clone();
    bad[8] = 3;
    assert_eq!(
        message(reader.get(b"k", &bad)),
        "corrupt SSTable: unknown SSTable record kind 3"
    );
    let mut bad = whole.clone();
    bad[8] = 2;
    assert_eq!(
        message(reader.entries(&bad)),
        "corrupt SSTable: tombstone data record contains a value"
    );
    let mut bad = whole.clone();
    bad[0] = 0;
    assert_eq!(
        message(reader.scan_prefix(b"k", 1, &bad)),
        "corrupt SSTable: data record contains an empty key"
    );
    assert_eq!(
        message(reader.get(b"m", &whole[..12])),
        "I/O error: failed to fill whole buffer"
    );
    assert_eq!(
        message(reader.get(b"m", &whole[..5])),
        "I/O error: failed to fill whole buffer"
    );
}

#[test]
fn a_row_needs_no_more_bytes_than_its_header_states() {
    let whole = file();
    assert_eq!(record_span(&whole), Some(11));
    assert_eq!(record_span(&whole[..8]), None);
    let row = read_data_record(&whole[..11]).expect("row");
    assert_eq!(row.key, b"k".to_vec());
    assert_eq!(row.record, ValueRecord::Value(b"v".to_vec()));
}

#[test]
fn numbers_in_the_paths_of_tables() {
    assert_eq!(
        sstable_id_from_path("x/00000000000000000042.sst").expect("id"),
        SstableId(42)
    );
    assert_eq!(sstable_id_from_path("+7.sst").expect("id"), SstableId(7));
    assert_eq!(sstable_id_from_path("x/7.sst/").expect("id"), SstableId(7));
    assert_eq!(
        message(sstable_id_from_path("x/seven.sst")),
        "corrupt SSTable: invalid SSTable id in x/seven.sst"
    );
    assert_eq!(
        message(sstable_id_from_path("x/18446744073709551616.sst")),
        "corrupt SSTable: invalid SSTable id in x/18446744073709551616.sst"
    );
    assert_eq!(
        message(sstable_id_from_path("x/..")),
        "corrupt SSTable: invalid SSTable path x/.."
    );
}

#[test]
fn errors_name_their_kind() {
    let error = StorageError::Io(IoError {
        kind: IoErrorKind::Other,
        message: "disk on fire".to_string(),
    });
    assert_eq!(error.message(), "I/O error: disk on fire");
    assert_eq!(
        StorageError::CorruptWal("x".to_string()).message(),
        "corrupt WAL: x"
    );
    assert_eq!(
        StorageError::CorruptSstable("x".to_string()).message(),
        "corrupt SSTable: x"
    );
    assert_eq!(
        StorageError::InvalidInput("x".to_string()).message(),
        "invalid input: x"
    );
}

#[test]
fn the_compaction_defaults() {
    let config = CompactionConfig::default();
    assert_eq!(config.level0_file_trigger, 4);
    assert_eq!(config.max_levels, 7);
}

#[test]
fn bytes_compare_by_value_and_then_by_length() {
    assert_eq!(compare(b"a", b"b"), Order::Less);
    assert_eq!(compare(b"ab", b"a"), Order::Greater);
    assert_eq!(compare(b"", b""), Order::Equal);
    assert_eq!(compare(b"\xff", b"a"), Order::Greater);
    assert_eq!(read_u32(&[0, 1, 2, 3, 4], 1), 0x0403_0201);
    assert_eq!(read_u64(&[1, 0, 0, 0, 0, 0, 0, 128], 0), 0x8000_0000_0000_0001);
}

#[test]
fn text_of_numbers_and_paths() {
    let mut text = String::new();
    push_decimal(&mut text, u64::MAX);
    push_decimal(&mut text, 0);
    push_fixed_decimal(&mut text, 12, 4);
    assert_eq!(text, "1844674407370955161500012");
    assert_eq!(parse_u64(&"007".chars().collect()), Some(7));
    assert_eq!(parse_u64(&"".chars().collect()), None);
    assert_eq!(parse_u64(&"+".chars().collect()), None);
    assert_eq!(parse_u64(&"-1".chars().collect()), None);
    assert_eq!(file_stem("a.b/c.d.e"), Some("c.d".chars().collect()));
    assert_eq!(file_stem("a/.hidden"), Some(".hidden".chars().collect()));
    assert_eq!(extension("a/.hidden"), None);
    assert_eq!(extension("a/x.y"), Some("y".chars().collect()));
}

#[test]
fn bytes_become_text() {
    assert_eq!(text_of("größe".as_bytes()), "größe");
    assert_eq!(text_of(b"a\xffb"), "a\u{fffd}b");
}
