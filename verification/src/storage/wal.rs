//! The write-ahead log.
//!
//! The log is a run of records, each of the form
//!
//! ```text
//! [length u32][op u8][key_len u32][value_len u32][key][value][crc32 u32]
//! ```
//!
//! with all numbers little-endian; the length and the checksum are those of the
//! bytes between them.
use vstd::prelude::*;
use vstd::string::StringExecFns;

use crate::bytes::{
    copy_bytes, copy_range, holds_u32, law_number_in_four_bytes, le_bytes, le_value,
    lemma_byte_range, lemma_le_len, lemma_le_value_of_bytes, push_bytes, push_u32, read_u32,
};
use crate::storage::error::{corrupt_wal, invalid_input, outcome, ErrorView, StorageError};
use crate::text::{decimal, push_decimal};

verus! {

/// The longest record that recovery takes.
pub const MAX_RECORD_BYTES: usize = 134217728;

/// The code of a put.
pub const PUT: u8 = 1;

/// The code of a delete.
pub const DELETE: u8 = 2;

/// What a log entry does.
#[derive(Clone, Copy, Debug, PartialEq, Eq, Structural)]
pub enum WalOp {
    Put,
    Delete,
}

/// One write, as it is logged.
#[derive(Debug, PartialEq, Eq)]
pub struct WalEntry {
    pub op: WalOp,
    pub key: Vec<u8>,
    pub value: Vec<u8>,
}

/// A log entry as contracts speak of it.
pub struct EntryView {
    pub op: WalOp,
    pub key: Seq<u8>,
    pub value: Seq<u8>,
}

impl View for WalEntry {
    type V = EntryView;

    open spec fn view(&self) -> EntryView {
        EntryView { op: self.op, key: self.key@, value: self.value@ }
    }
}

impl Clone for WalEntry {
    fn clone(&self) -> (copy: Self)
        ensures
            copy@ == self@,
    {
        WalEntry {
            op: self.op,
            key: copy_bytes(self.key.as_slice()),
            value: copy_bytes(self.value.as_slice()),
        }
    }
}

impl WalEntry {
    /// The entry that gives a key a value.
    pub fn put(key: &[u8], value: &[u8]) -> (entry: Self)
        ensures
            entry@ == (EntryView { op: WalOp::Put, key: key@, value: value@ }),
    {
        WalEntry { op: WalOp::Put, key: copy_bytes(key), value: copy_bytes(value) }
    }

    /// The entry that deletes a key.
    pub fn delete(key: &[u8]) -> (entry: Self)
        ensures
            entry@ == (EntryView { op: WalOp::Delete, key: key@, value: Seq::empty() }),
    {
        let entry = WalEntry { op: WalOp::Delete, key: copy_bytes(key), value: Vec::new() };
        assert(entry.value@ =~= Seq::empty());
        entry
    }
}

/// The CRC-32 of a byte string.
pub uninterp spec fn crc32(data: Seq<u8>) -> u32;

/// `crc32fast::hash` computes the CRC-32 of its argument, which depends on the
/// bytes alone.
pub assume_specification[ crc32fast::hash ](buf: &[u8]) -> (sum: u32)
    ensures
        sum == crc32(buf@),
;

/// The checksum that stands behind a payload.
pub fn checksum(payload: &[u8]) -> (sum: u32)
    ensures
        sum == crc32(payload@),
{
    crc32fast::hash(payload)
}

/// The code of what an entry does.
pub open spec fn op_code(op: WalOp) -> u8 {
    match op {
        WalOp::Put => PUT,
        WalOp::Delete => DELETE,
    }
}

/// An entry as the log keeps it: a delete has no value.
pub open spec fn logged(entry: EntryView) -> EntryView {
    match entry.op {
        WalOp::Put => entry,
        WalOp::Delete => EntryView { value: Seq::empty(), ..entry },
    }
}

/// The payload of an entry's record.
pub open spec fn payload_of(entry: EntryView) -> Seq<u8> {
    let value = logged(entry).value;
    seq![op_code(entry.op)] + le_bytes(entry.key.len(), 4) + le_bytes(value.len(), 4) + entry.key
        + value
}

/// The payload of an entry's record, or why it has none.
pub open spec fn encode_spec(entry: EntryView) -> Result<Seq<u8>, ErrorView> {
    if entry.key.len() == 0 {
        Err(ErrorView::InvalidInput("WAL entries require a non-empty key"@))
    } else if entry.key.len() > u32::MAX {
        Err(ErrorView::InvalidInput("key is too large to encode in WAL"@))
    } else if logged(entry).value.len() > u32::MAX {
        Err(ErrorView::InvalidInput("value is too large to encode in WAL"@))
    } else {
        Ok(payload_of(entry))
    }
}

/// A payload between its length and its checksum.
pub open spec fn frame(payload: Seq<u8>) -> Seq<u8> {
    le_bytes(payload.len(), 4) + payload + le_bytes(crc32(payload) as nat, 4)
}

/// The record of an entry, or why it has none.
pub open spec fn record_spec(entry: EntryView) -> Result<Seq<u8>, ErrorView> {
    match encode_spec(entry) {
        Ok(payload) => if payload.len() > u32::MAX {
            Err(ErrorView::InvalidInput("WAL record is too large to encode"@))
        } else {
            Ok(frame(payload))
        },
        Err(error) => Err(error),
    }
}

/// The key length that a payload states.
pub open spec fn stated_key_len(payload: Seq<u8>) -> nat {
    le_value(payload.subrange(1, 5))
}

/// The value length that a payload states.
pub open spec fn stated_value_len(payload: Seq<u8>) -> nat {
    le_value(payload.subrange(5, 9))
}

/// What a payload says, or what is wrong with it.
pub open spec fn decode_spec(payload: Seq<u8>) -> Result<EntryView, ErrorView> {
    let key_len = stated_key_len(payload);
    let value_len = stated_value_len(payload);
    let expected_len = 9 + key_len + value_len;
    if payload.len() < 9 {
        Err(ErrorView::CorruptWal("record is too short to contain header"@))
    } else if payload[0] != PUT && payload[0] != DELETE {
        Err(ErrorView::CorruptWal("unknown operation code "@ + decimal(payload[0] as nat)))
    } else if expected_len > usize::MAX {
        Err(ErrorView::CorruptWal("record length overflow"@))
    } else if payload.len() != expected_len {
        Err(
            ErrorView::CorruptWal(
                "record length "@ + decimal(payload.len())
                    + " does not match encoded key/value lengths "@ + decimal(expected_len),
            ),
        )
    } else if key_len == 0 {
        Err(ErrorView::CorruptWal("record contains an empty key"@))
    } else if payload[0] == DELETE && value_len != 0 {
        Err(ErrorView::CorruptWal("delete record contains a value"@))
    } else {
        Ok(
            EntryView {
                op: if payload[0] == PUT {
                    WalOp::Put
                } else {
                    WalOp::Delete
                },
                key: payload.subrange(9, 9 + key_len as int),
                value: payload.skip(9 + key_len as int),
            },
        )
    }
}

/// Entries in front of what the rest of a log says.
pub open spec fn prepend(
    entries: Seq<EntryView>,
    rest: Result<Seq<EntryView>, ErrorView>,
) -> Result<Seq<EntryView>, ErrorView> {
    match rest {
        Ok(more) => Ok(entries + more),
        Err(error) => Err(error),
    }
}

/// What a log says: its entries up to its end, or up to a record that was not
/// written to the end; or what is wrong with it.
pub open spec fn recover_spec(log: Seq<u8>) -> Result<Seq<EntryView>, ErrorView>
    decreases log.len(),
{
    let length = le_value(log.subrange(0, 4)) as int;
    let payload = log.subrange(4, 4 + length);
    let stored = le_value(log.subrange(4 + length, 8 + length));
    if log.len() < 4 {
        Ok(Seq::empty())
    } else if length > MAX_RECORD_BYTES {
        Err(
            ErrorView::CorruptWal(
                "record length "@ + decimal(length as nat) + " exceeds max "@ + decimal(
                    MAX_RECORD_BYTES as nat,
                ),
            ),
        )
    } else if log.len() < 8 + length {
        Ok(Seq::empty())
    } else if crc32(payload) != stored {
        Err(
            ErrorView::CorruptWal(
                "checksum mismatch: expected "@ + decimal(stored) + ", got "@ + decimal(
                    crc32(payload) as nat,
                ),
            ),
        )
    } else {
        match decode_spec(payload) {
            Ok(entry) => prepend(seq![entry], recover_spec(log.skip(8 + length))),
            Err(error) => Err(error),
        }
    }
}

/// Log entries as contracts speak of them.
pub open spec fn entries_of(entries: Seq<WalEntry>) -> Seq<EntryView> {
    entries.map_values(|entry: WalEntry| entry@)
}

/// What recovery returned, as contracts speak of it.
pub open spec fn recovered(result: Result<Vec<WalEntry>, StorageError>) -> Result<
    Seq<EntryView>,
    ErrorView,
> {
    match result {
        Ok(entries) => Ok(entries_of(entries@)),
        Err(error) => Err(error@),
    }
}

/// The payload of an entry's record.
pub fn encode_entry(entry: &WalEntry) -> (payload: Result<Vec<u8>, StorageError>)
    ensures
        outcome(payload) == encode_spec(entry@),
{
    if entry.key.len() == 0 {
        return Err(invalid_input("WAL entries require a non-empty key"));
    }
    let op: u8 = match entry.op {
        WalOp::Put => PUT,
        WalOp::Delete => DELETE,
    };
    let value: Vec<u8> = match entry.op {
        WalOp::Put => copy_bytes(entry.value.as_slice()),
        WalOp::Delete => Vec::new(),
    };
    assert(value@ =~= logged(entry@).value);
    if entry.key.len() > u32::MAX as usize {
        return Err(invalid_input("key is too large to encode in WAL"));
    }
    if value.len() > u32::MAX as usize {
        return Err(invalid_input("value is too large to encode in WAL"));
    }
    let mut payload: Vec<u8> = Vec::new();
    payload.push(op);
    push_u32(&mut payload, entry.key.len() as u32);
    push_u32(&mut payload, value.len() as u32);
    push_bytes(&mut payload, entry.key.as_slice());
    push_bytes(&mut payload, value.as_slice());
    assert(payload@ =~= payload_of(entry@));
    Ok(payload)
}

/// What a payload says.
pub fn decode_entry(payload: &[u8]) -> (entry: Result<WalEntry, StorageError>)
    ensures
        outcome(entry) == decode_spec(payload@),
{
    if payload.len() < 9 {
        return Err(corrupt_wal("record is too short to contain header"));
    }
    let code: u8 = payload[0];
    let op = if code == PUT {
        WalOp::Put
    } else if code == DELETE {
        WalOp::Delete
    } else {
        let mut message = String::from_str("unknown operation code ");
        push_decimal(&mut message, code as u64);
        return Err(StorageError::CorruptWal(message));
    };
    let key_len = read_u32_from_payload(payload, 1) as usize;
    let value_len = read_u32_from_payload(payload, 5) as usize;
    let expected_len: usize = match 9usize.checked_add(key_len) {
        Some(length) => match length.checked_add(value_len) {
            Some(length) => length,
            None => {
                return Err(corrupt_wal("record length overflow"));
            },
        },
        None => {
            return Err(corrupt_wal("record length overflow"));
        },
    };
    if payload.len() != expected_len {
        let mut message = String::from_str("record length ");
        push_decimal(&mut message, payload.len() as u64);
        message.append(" does not match encoded key/value lengths ");
        push_decimal(&mut message, expected_len as u64);
        return Err(StorageError::CorruptWal(message));
    }
    if key_len == 0 {
        return Err(corrupt_wal("record contains an empty key"));
    }
    if op == WalOp::Delete && value_len != 0 {
        return Err(corrupt_wal("delete record contains a value"));
    }
    let key_end: usize = 9 + key_len;
    let entry = WalEntry {
        op,
        key: copy_range(payload, 9, key_end),
        value: copy_range(payload, key_end, payload.len()),
    };
    assert(entry.value@ =~= payload@.skip(key_end as int));
    Ok(entry)
}

/// Reads a `u32` out of a payload.
fn read_u32_from_payload(payload: &[u8], start: usize) -> (n: u32)
    requires
        start + 4 <= payload.len(),
    ensures
        n as nat == le_value(payload@.subrange(start as int, start + 4)),
{
    read_u32(payload, start)
}

/// The log of a store.
#[derive(Debug)]
pub struct Wal {
    path: String,
}

impl Wal {
    /// Where the log is kept.
    pub closed spec fn location(&self) -> Seq<char> {
        self.path@
    }

    /// The log that is kept at `path`.
    pub fn open(path: String) -> (wal: Self)
        ensures
            wal.location() == path@,
    {
        Wal { path }
    }

    /// Where the log is kept.
    pub fn path(&self) -> (path: &str)
        ensures
            path@ == self.location(),
    {
        self.path.as_str()
    }

    /// Appends the record of an entry to the bytes of a log, and returns where the
    /// record begins: the length of the log before. An entry that has no record leaves
    /// the log as it was.
    pub fn append(log: &mut Vec<u8>, entry: &WalEntry) -> (offset: Result<u64, StorageError>)
        ensures
            match record_spec(entry@) {
                Ok(record) => {
                    &&& offset is Ok
                    &&& offset->Ok_0 == old(log)@.len()
                    &&& final(log)@ == old(log)@ + record
                },
                Err(error) => {
                    &&& offset is Err
                    &&& offset->Err_0@ == error
                    &&& final(log)@ == old(log)@
                },
            },
    {
        let payload = match encode_entry(entry) {
            Ok(payload) => payload,
            Err(error) => {
                return Err(error);
            },
        };
        if payload.len() > u32::MAX as usize {
            return Err(invalid_input("WAL record is too large to encode"));
        }
        let sum = checksum(payload.as_slice());
        let offset: u64 = log.len() as u64;
        push_u32(log, payload.len() as u32);
        push_bytes(log, payload.as_slice());
        push_u32(log, sum);
        assert(log@ =~= old(log)@ + frame(payload@));
        Ok(offset)
    }

    /// The entries of a log, given its bytes. A record at the end that was not
    /// written whole is left out.
    pub fn recover(log: &[u8]) -> (entries: Result<Vec<WalEntry>, StorageError>)
        ensures
            recovered(entries) == recover_spec(log@),
    {
        let mut entries: Vec<WalEntry> = Vec::new();
        let mut at: usize = 0;
        assert(entries_of(entries@) =~= Seq::empty());
        assert(log@.skip(0) =~= log@);
        assert(prepend(Seq::empty(), recover_spec(log@)) == recover_spec(log@)) by {
            if recover_spec(log@) is Ok {
                assert(Seq::empty() + recover_spec(log@)->Ok_0 =~= recover_spec(log@)->Ok_0);
            }
        }
        while log.len() - at >= 4
            invariant
                at <= log.len(),
                recover_spec(log@) == prepend(
                    entries_of(entries@),
                    recover_spec(log@.skip(at as int)),
                ),
            ensures
                recover_spec(log@) == Ok::<Seq<EntryView>, ErrorView>(entries_of(entries@)),
            decreases log.len() - at,
        {
            let ghost rest = log@.skip(at as int);
            let length = read_u32(log, at) as usize;
            assert(rest.subrange(0, 4) =~= log@.subrange(at as int, at + 4));
            if length > MAX_RECORD_BYTES {
                let mut message = String::from_str("record length ");
                push_decimal(&mut message, length as u64);
                message.append(" exceeds max ");
                push_decimal(&mut message, MAX_RECORD_BYTES as u64);
                return Err(StorageError::CorruptWal(message));
            }
            if log.len() - at < 8 + length {
                assert(recover_spec(rest) == Ok::<Seq<EntryView>, ErrorView>(Seq::empty()));
                assert(entries_of(entries@) + Seq::empty() =~= entries_of(entries@));
                break ;
            }
            let payload = vstd::slice::slice_subrange(log, at + 4, at + 4 + length);
            let stored = read_u32(log, at + 4 + length);
            assert(rest.subrange(4, 4 + length) =~= payload@);
            assert(rest.subrange(4 + length, 8 + length) =~= log@.subrange(
                at + 4 + length,
                at + 8 + length,
            ));
            let actual = checksum(payload);
            if actual != stored {
                let mut message = String::from_str("checksum mismatch: expected ");
                push_decimal(&mut message, stored as u64);
                message.append(", got ");
                push_decimal(&mut message, actual as u64);
                return Err(StorageError::CorruptWal(message));
            }
            let entry = match decode_entry(payload) {
                Ok(entry) => entry,
                Err(error) => {
                    return Err(error);
                },
            };
            proof {
                let next = rest.skip(8 + length);
                assert(next =~= log@.skip(at + 8 + length));
                assert(recover_spec(rest) == prepend(seq![entry@], recover_spec(next)));
                lemma_prepend_push(entries_of(entries@), entry@, recover_spec(next));
            }
            let ghost before = entries@;
            entries.push(entry);
            assert(entries_of(entries@) =~= entries_of(before).push(entry@));
            at = at + 8 + length;
        }
        Ok(entries)
    }
}

/// Prepending one entry and then others is prepending them all.
proof fn lemma_prepend_push(
    entries: Seq<EntryView>,
    entry: EntryView,
    rest: Result<Seq<EntryView>, ErrorView>,
)
    ensures
        prepend(entries, prepend(seq![entry], rest)) == prepend(entries.push(entry), rest),
{
    if let Ok(more) = rest {
        assert(entries + (seq![entry] + more) =~= entries.push(entry) + more);
    }
}

/// Whether an entry has a record that recovery takes.
pub open spec fn loggable(entry: EntryView) -> bool {
    &&& encode_spec(entry) is Ok
    &&& payload_of(entry).len() <= MAX_RECORD_BYTES
}

/// The log to which entries were appended, one after the other.
pub open spec fn log_of(entries: Seq<EntryView>) -> Seq<u8>
    decreases entries.len(),
{
    if entries.len() == 0 {
        Seq::empty()
    } else {
        log_of(entries.drop_last()) + frame(payload_of(entries.last()))
    }
}

/// Entries as the log keeps them.
pub open spec fn all_logged(entries: Seq<EntryView>) -> Seq<EntryView> {
    entries.map_values(|entry: EntryView| logged(entry))
}

/// The parts of a payload stand where decoding looks for them.
proof fn lemma_payload_parts(entry: EntryView)
    requires
        encode_spec(entry) is Ok,
    ensures
        payload_of(entry).len() == 9 + entry.key.len() + logged(entry).value.len(),
        payload_of(entry)[0] == op_code(entry.op),
        stated_key_len(payload_of(entry)) == entry.key.len(),
        stated_value_len(payload_of(entry)) == logged(entry).value.len(),
        payload_of(entry).subrange(9, 9 + entry.key.len() as int) == entry.key,
        payload_of(entry).skip(9 + entry.key.len() as int) == logged(entry).value,
{
    let payload = payload_of(entry);
    let value = logged(entry).value;
    let key_field = le_bytes(entry.key.len(), 4);
    let value_field = le_bytes(value.len(), 4);
    lemma_le_len(entry.key.len(), 4);
    lemma_le_len(value.len(), 4);
    lemma_byte_range();
    lemma_le_value_of_bytes(entry.key.len(), 4);
    lemma_le_value_of_bytes(value.len(), 4);
    assert(payload.subrange(1, 5) =~= key_field);
    assert(payload.subrange(5, 9) =~= value_field);
    assert(payload.subrange(9, 9 + entry.key.len() as int) =~= entry.key);
    assert(payload.skip(9 + entry.key.len() as int) =~= value);
}

/// Decoding what encoding gave returns the entry, a delete without its value.
pub proof fn law_entry_round_trip(entry: EntryView)
    requires
        encode_spec(entry) is Ok,
        payload_of(entry).len() <= usize::MAX,
    ensures
        decode_spec(encode_spec(entry)->Ok_0) == Ok::<EntryView, ErrorView>(logged(entry)),
{
    lemma_payload_parts(entry);
}

/// The parts of a record stand where recovery looks for them.
proof fn lemma_frame_parts(payload: Seq<u8>, rest: Seq<u8>)
    requires
        payload.len() <= u32::MAX,
    ensures
        frame(payload).len() == 8 + payload.len(),
        ({
            let log = frame(payload) + rest;
            &&& le_value(log.subrange(0, 4)) == payload.len()
            &&& log.subrange(4, 4 + payload.len() as int) == payload
            &&& le_value(log.subrange(4 + payload.len() as int, 8 + payload.len() as int)) == crc32(payload)
            &&& log.skip(8 + payload.len() as int) == rest
        }),
{
    let log = frame(payload) + rest;
    let size = le_bytes(payload.len(), 4);
    let sum = le_bytes(crc32(payload) as nat, 4);
    lemma_le_len(payload.len(), 4);
    lemma_le_len(crc32(payload) as nat, 4);
    lemma_byte_range();
    lemma_le_value_of_bytes(payload.len(), 4);
    lemma_le_value_of_bytes(crc32(payload) as nat, 4);
    assert(log.subrange(0, 4) =~= size);
    assert(log.subrange(4, 4 + payload.len() as int) =~= payload);
    assert(log.subrange(4 + payload.len() as int, 8 + payload.len() as int) =~= sum);
    assert(log.skip(8 + payload.len() as int) =~= rest);
}

/// Recovery reads one record and goes on behind it.
proof fn lemma_recover_record(entry: EntryView, rest: Seq<u8>)
    requires
        loggable(entry),
    ensures
        recover_spec(frame(payload_of(entry)) + rest) == prepend(
            seq![logged(entry)],
            recover_spec(rest),
        ),
{
    let payload = payload_of(entry);
    lemma_frame_parts(payload, rest);
    law_entry_round_trip(entry);
}

/// Recovery of a log with more bytes behind it gives the log's entries, and then
/// what the bytes behind give.
pub proof fn law_recover_goes_on(entries: Seq<EntryView>, rest: Seq<u8>)
    requires
        forall|i: int| 0 <= i < entries.len() ==> loggable(#[trigger] entries[i]),
    ensures
        recover_spec(log_of(entries) + rest) == prepend(all_logged(entries), recover_spec(rest)),
    decreases entries.len(),
{
    if entries.len() == 0 {
        assert(log_of(entries) + rest =~= rest);
        assert(all_logged(entries) =~= Seq::empty());
        if let Ok(more) = recover_spec(rest) {
            assert(Seq::empty() + more =~= more);
        }
    } else {
        let front = entries.drop_last();
        let last = entries.last();
        assert(last == entries[entries.len() - 1]);
        assert forall|i: int| 0 <= i < front.len() implies loggable(#[trigger] front[i]) by {
            assert(front[i] == entries[i]);
        }
        let record = frame(payload_of(last));
        assert(log_of(entries) + rest =~= log_of(front) + (record + rest));
        law_recover_goes_on(front, record + rest);
        lemma_recover_record(last, rest);
        lemma_prepend_push(all_logged(front), logged(last), recover_spec(rest));
        assert(all_logged(entries) =~= all_logged(front).push(logged(last)));
    }
}

/// What was appended is recovered, in the order in which it was appended.
pub proof fn law_recover_returns_appended(entries: Seq<EntryView>)
    requires
        forall|i: int| 0 <= i < entries.len() ==> loggable(#[trigger] entries[i]),
    ensures
        recover_spec(log_of(entries)) == Ok::<Seq<EntryView>, ErrorView>(all_logged(entries)),
{
    law_recover_goes_on(entries, Seq::empty());
    assert(log_of(entries) + Seq::empty() =~= log_of(entries));
    assert(all_logged(entries) + Seq::empty() =~= all_logged(entries));
}

/// Recovery fails at a record that is longer than it takes.
proof fn lemma_long_record(entry: EntryView, rest: Seq<u8>)
    requires
        record_spec(entry) is Ok,
        recover_spec(frame(payload_of(entry)) + rest) is Ok,
    ensures
        loggable(entry),
{
    lemma_frame_parts(payload_of(entry), rest);
}

/// Recovery ends well only where it takes all records: behind entries with one that is
/// longer than it takes, it fails, whatever stands behind.
pub proof fn law_long_records_are_refused(entries: Seq<EntryView>, rest: Seq<u8>)
    requires
        forall|i: int| 0 <= i < entries.len() ==> record_spec(#[trigger] entries[i]) is Ok,
        recover_spec(log_of(entries) + rest) is Ok,
    ensures
        forall|i: int| 0 <= i < entries.len() ==> loggable(#[trigger] entries[i]),
    decreases entries.len(),
{
    if entries.len() > 0 {
        let front = entries.drop_last();
        let last = entries.last();
        let record = frame(payload_of(last));
        assert(last == entries[entries.len() - 1]);
        assert forall|i: int| 0 <= i < front.len() implies record_spec(
            #[trigger] front[i],
        ) is Ok by {
            assert(front[i] == entries[i]);
        }
        assert(log_of(entries) + rest =~= log_of(front) + (record + rest));
        law_long_records_are_refused(front, record + rest);
        law_recover_goes_on(front, record + rest);
        lemma_long_record(last, rest);
        assert forall|i: int| 0 <= i < entries.len() implies loggable(#[trigger] entries[i]) by {
            if i < front.len() {
                assert(front[i] == entries[i]);
            }
        }
    }
}

/// A record at the end of a log of which only a part was written is ignored: the
/// entries before it are recovered, unless the length at its beginning is whole and
/// more than recovery takes.
pub proof fn law_torn_record_is_ignored(entries: Seq<EntryView>, torn: EntryView, written: int)
    requires
        forall|i: int| 0 <= i < entries.len() ==> loggable(#[trigger] entries[i]),
        record_spec(torn) is Ok,
        0 <= written < frame(payload_of(torn)).len(),
    ensures
        recover_spec(log_of(entries) + frame(payload_of(torn)).take(written)) is Ok <==> loggable(
            torn,
        ) || written < 4,
        recover_spec(log_of(entries) + frame(payload_of(torn)).take(written)) is Ok ==> recover_spec(
            log_of(entries) + frame(payload_of(torn)).take(written),
        ) == Ok::<Seq<EntryView>, ErrorView>(all_logged(entries)),
{
    let payload = payload_of(torn);
    let part = frame(payload).take(written);
    lemma_frame_parts(payload, Seq::empty());
    assert(frame(payload) + Seq::empty() =~= frame(payload));
    if written >= 4 {
        assert(part.subrange(0, 4) =~= frame(payload).subrange(0, 4));
    }
    law_recover_goes_on(entries, part);
    assert(all_logged(entries) + Seq::empty() =~= all_logged(entries));
}

/// A record whose stored checksum is not that of its payload makes recovery fail,
/// whatever stands before and behind it.
pub proof fn law_wrong_checksum_is_found(
    entries: Seq<EntryView>,
    payload: Seq<u8>,
    stored: u32,
    rest: Seq<u8>,
)
    requires
        forall|i: int| 0 <= i < entries.len() ==> loggable(#[trigger] entries[i]),
        payload.len() <= MAX_RECORD_BYTES,
        stored != crc32(payload),
    ensures
        recover_spec(
            log_of(entries) + (le_bytes(payload.len(), 4) + payload + le_bytes(stored as nat, 4)
                + rest),
        ) == Err::<Seq<EntryView>, ErrorView>(
            ErrorView::CorruptWal(
                "checksum mismatch: expected "@ + decimal(stored as nat) + ", got "@ + decimal(
                    crc32(payload) as nat,
                ),
            ),
        ),
{
    let size = le_bytes(payload.len(), 4);
    let sum = le_bytes(stored as nat, 4);
    let bad = size + payload + sum + rest;
    lemma_le_len(payload.len(), 4);
    lemma_le_len(stored as nat, 4);
    lemma_byte_range();
    lemma_le_value_of_bytes(payload.len(), 4);
    lemma_le_value_of_bytes(stored as nat, 4);
    assert(bad.subrange(0, 4) =~= size);
    assert(bad.subrange(4, 4 + payload.len() as int) =~= payload);
    assert(bad.subrange(4 + payload.len() as int, 8 + payload.len() as int) =~= sum);
    law_recover_goes_on(entries, bad);
}

// What the records of the log are, byte by byte.

/// Whether a payload is that of an entry, byte by byte: a byte for what the entry does,
/// one for a put and two for a delete; the lengths of the key and of the value; the key,
/// which is not empty; and the value, which a delete does not have.
pub open spec fn is_payload_of(payload: Seq<u8>, entry: EntryView) -> bool {
    let k = entry.key.len() as int;
    let v = entry.value.len() as int;
    &&& payload.len() == 9 + k + v
    &&& payload[0] == if entry.op == WalOp::Put {
        1u8
    } else {
        2u8
    }
    &&& holds_u32(payload, 1, entry.key.len())
    &&& holds_u32(payload, 5, entry.value.len())
    &&& payload.subrange(9, 9 + k) == entry.key
    &&& payload.subrange(9 + k, 9 + k + v) == entry.value
    &&& k > 0
    &&& entry.op == WalOp::Delete ==> v == 0
}

/// An entry whose key is not empty and of at most as many bytes as four bytes count, and
/// whose value is no longer than that, has a payload: its code, the two lengths, the key
/// and the value. A delete has no value, whatever the entry holds.
pub proof fn law_entry_has_a_payload(entry: EntryView)
    requires
        0 < entry.key.len() <= 0xffff_ffff,
        entry.op == WalOp::Put ==> entry.value.len() <= 0xffff_ffff,
    ensures
        encode_spec(entry) is Ok,
        entry.op == WalOp::Put ==> is_payload_of(encode_spec(entry)->Ok_0, entry),
        entry.op == WalOp::Delete ==> is_payload_of(
            encode_spec(entry)->Ok_0,
            EntryView { op: WalOp::Delete, key: entry.key, value: Seq::empty() },
        ),
        encode_spec(entry)->Ok_0.len() == 9 + entry.key.len() + (if entry.op == WalOp::Put {
            entry.value.len()
        } else {
            0
        }),
{
    let payload = payload_of(entry);
    lemma_payload_parts(entry);
    law_number_in_four_bytes(payload, 1);
    law_number_in_four_bytes(payload, 5);
    assert(payload.subrange(9 + entry.key.len() as int, payload.len() as int) =~= payload.skip(
        9 + entry.key.len() as int,
    ));
}

/// An entry that has a payload of at most as many bytes as four bytes count has a log
/// record: the payload between its length and its checksum.
pub proof fn law_entry_has_a_record(entry: EntryView)
    requires
        0 < entry.key.len() <= 0xffff_ffff,
        entry.op == WalOp::Put ==> entry.value.len() <= 0xffff_ffff,
        9 + entry.key.len() + (if entry.op == WalOp::Put {
            entry.value.len()
        } else {
            0
        }) <= 0xffff_ffff,
    ensures
        record_spec(entry) is Ok,
        ({
            let record = record_spec(entry)->Ok_0;
            let payload = encode_spec(entry)->Ok_0;
            let n = payload.len() as int;
            &&& encode_spec(entry) is Ok
            &&& record.len() == n + 8
            &&& holds_u32(record, 0, payload.len())
            &&& record.subrange(4, 4 + n) == payload
            &&& holds_u32(record, 4 + n, crc32(payload) as nat)
        }),
{
    let payload = payload_of(entry);
    let n = payload.len() as int;
    let record = frame(payload);
    law_entry_has_a_payload(entry);
    lemma_frame_parts(payload, Seq::empty());
    assert(record + Seq::empty() =~= record);
    law_number_in_four_bytes(record, 0);
    law_number_in_four_bytes(record, 4 + n);
}

/// The entries without a record, and the reason of each: an empty key, a key or a value
/// that is too long, or both together.
pub proof fn law_entries_without_a_record(entry: EntryView)
    ensures
        ({
            let value_len = if entry.op == WalOp::Put {
                entry.value.len()
            } else {
                0
            };
            &&& entry.key.len() == 0 ==> record_spec(entry) == Err::<Seq<u8>, ErrorView>(
                ErrorView::InvalidInput("WAL entries require a non-empty key"@),
            )
            &&& entry.key.len() > 0xffff_ffff ==> record_spec(entry) == Err::<Seq<u8>, ErrorView>(
                ErrorView::InvalidInput("key is too large to encode in WAL"@),
            )
            &&& 0 < entry.key.len() <= 0xffff_ffff && value_len > 0xffff_ffff ==> record_spec(entry)
                == Err::<Seq<u8>, ErrorView>(
                ErrorView::InvalidInput("value is too large to encode in WAL"@),
            )
            &&& 0 < entry.key.len() <= 0xffff_ffff && value_len <= 0xffff_ffff && 9
                + entry.key.len() + value_len > 0xffff_ffff ==> record_spec(entry) == Err::<
                Seq<u8>,
                ErrorView,
            >(ErrorView::InvalidInput("WAL record is too large to encode"@))
        }),
{
    if 0 < entry.key.len() <= 0xffff_ffff && encode_spec(entry) is Ok {
        lemma_payload_parts(entry);
    }
}

/// A payload says an entry exactly if it is the payload of that entry, byte by byte.
pub proof fn law_payload_says_its_entry(payload: Seq<u8>, entry: EntryView)
    requires
        payload.len() <= usize::MAX,
    ensures
        decode_spec(payload) == Ok::<EntryView, ErrorView>(entry) <==> is_payload_of(
            payload,
            entry,
        ),
{
    if payload.len() >= 9 {
        law_number_in_four_bytes(payload, 1);
        law_number_in_four_bytes(payload, 5);
        let k = stated_key_len(payload) as int;
        let v = stated_value_len(payload) as int;
        if payload.len() == 9 + k + v {
            assert(payload.skip(9 + k) =~= payload.subrange(9 + k, 9 + k + v));
            assert(payload.subrange(9, 9 + k).len() == k);
            assert(payload.subrange(9 + k, 9 + k + v).len() == v);
        }
        if is_payload_of(payload, entry) {
            assert(k == entry.key.len());
            assert(v == entry.value.len());
        }
    }
}

/// What is wrong with a payload that says nothing: it is too short for its header, its
/// code stands for nothing, its length is not the one that it states, it has no key, or
/// it deletes and has a value.
pub proof fn law_payloads_that_say_nothing(payload: Seq<u8>, k: nat, v: nat)
    requires
        payload.len() >= 9 ==> holds_u32(payload, 1, k) && holds_u32(payload, 5, v),
        9 + k + v <= usize::MAX,
    ensures
        payload.len() < 9 ==> decode_spec(payload) == Err::<EntryView, ErrorView>(
            ErrorView::CorruptWal("record is too short to contain header"@),
        ),
        payload.len() >= 9 && payload[0] != 1 && payload[0] != 2 ==> decode_spec(payload) == Err::<
            EntryView,
            ErrorView,
        >(ErrorView::CorruptWal("unknown operation code "@ + decimal(payload[0] as nat))),
        payload.len() >= 9 && (payload[0] == 1 || payload[0] == 2) && payload.len() != 9 + k + v
            ==> decode_spec(payload) == Err::<EntryView, ErrorView>(
            ErrorView::CorruptWal(
                "record length "@ + decimal(payload.len())
                    + " does not match encoded key/value lengths "@ + decimal(9 + k + v),
            ),
        ),
        payload.len() == 9 + k + v && (payload[0] == 1 || payload[0] == 2) && k == 0
            ==> decode_spec(payload) == Err::<EntryView, ErrorView>(
            ErrorView::CorruptWal("record contains an empty key"@),
        ),
        payload.len() == 9 + k + v && payload[0] == 2 && k > 0 && v > 0 ==> decode_spec(payload)
            == Err::<EntryView, ErrorView>(
            ErrorView::CorruptWal("delete record contains a value"@),
        ),
{
    if payload.len() >= 9 {
        law_number_in_four_bytes(payload, 1);
        law_number_in_four_bytes(payload, 5);
    }
}

/// How recovery reads a log: one that is too short for a length ends there, and so does
/// one that is too short for the record that it begins with; a record of more than
/// 134217728 bytes is refused, and so is one whose checksum is not that of its payload,
/// or whose payload says nothing; otherwise the entry of the payload stands in front of
/// what the rest of the log gives.
pub proof fn law_recovery_reads_record_by_record(log: Seq<u8>, length: nat, stored: nat)
    requires
        log.len() >= 4 ==> holds_u32(log, 0, length),
        log.len() >= 8 + length ==> holds_u32(log, 4 + length as int, stored),
    ensures
        ({
            let payload = log.subrange(4, 4 + length as int);
            let rest = log.skip(8 + length as int);
            &&& log.len() < 4 ==> recover_spec(log) == Ok::<Seq<EntryView>, ErrorView>(
                Seq::empty(),
            )
            &&& log.len() >= 4 && length > 134217728 ==> recover_spec(log) == Err::<
                Seq<EntryView>,
                ErrorView,
            >(
                ErrorView::CorruptWal(
                    "record length "@ + decimal(length) + " exceeds max "@ + decimal(134217728),
                ),
            )
            &&& 4 <= log.len() < 8 + length && length <= 134217728 ==> recover_spec(log) == Ok::<
                Seq<EntryView>,
                ErrorView,
            >(Seq::empty())
            &&& log.len() >= 8 + length && length <= 134217728 && crc32(payload) != stored
                ==> recover_spec(log) == Err::<Seq<EntryView>, ErrorView>(
                ErrorView::CorruptWal(
                    "checksum mismatch: expected "@ + decimal(stored) + ", got "@ + decimal(
                        crc32(payload) as nat,
                    ),
                ),
            )
            &&& log.len() >= 8 + length && length <= 134217728 && crc32(payload) == stored
                ==> match decode_spec(payload) {
                Err(error) => recover_spec(log) == Err::<Seq<EntryView>, ErrorView>(error),
                Ok(entry) => match recover_spec(rest) {
                    Err(error) => recover_spec(log) == Err::<Seq<EntryView>, ErrorView>(error),
                    Ok(more) => recover_spec(log) == Ok::<Seq<EntryView>, ErrorView>(
                        seq![entry] + more,
                    ),
                },
            }
        }),
{
    if log.len() >= 4 {
        law_number_in_four_bytes(log, 0);
        if log.len() >= 8 + length {
            law_number_in_four_bytes(log, 4 + length as int);
        }
    }
}

/// Recovery takes the record of an entry exactly if the payload has at most 134217728
/// bytes.
pub proof fn law_records_that_recovery_takes(entry: EntryView)
    requires
        0 < entry.key.len(),
    ensures
        loggable(entry) <==> 9 + entry.key.len() + (if entry.op == WalOp::Put {
            entry.value.len()
        } else {
            0
        }) <= 134217728,
{
    if encode_spec(entry) is Ok {
        lemma_payload_parts(entry);
    } else if 9 + entry.key.len() + (if entry.op == WalOp::Put {
        entry.value.len()
    } else {
        0
    }) <= 134217728 {
        law_entry_has_a_payload(entry);
    }
}

/// An entry is spoken of as it is, and entries one by one in their order.
pub proof fn law_view_of_entries(entries: Seq<WalEntry>)
    ensures
        entries_of(entries).len() == entries.len(),
        forall|i: int|
            0 <= i < entries.len() ==> (#[trigger] entries_of(entries)[i]).op == entries[i].op
                && entries_of(entries)[i].key == entries[i].key@ && entries_of(entries)[i].value
                == entries[i].value@,
{
}

/// What recovery returned is spoken of by the entries or the error in it.
pub proof fn law_view_of_recovery(result: Result<Vec<WalEntry>, StorageError>)
    ensures
        result matches Ok(entries) ==> recovered(result) == Ok::<Seq<EntryView>, ErrorView>(
            entries_of(entries@),
        ),
        result matches Err(error) ==> recovered(result) == Err::<Seq<EntryView>, ErrorView>(
            error@,
        ),
{
}

} // verus!
