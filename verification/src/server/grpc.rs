//! The answers of the gRPC server, and what watchers are told.
use vstd::prelude::*;
use vstd::string::StringExecFns;

use crate::storage::compaction::CompactionReport;
use crate::storage::engine::StorageStats;
use crate::storage::error::{ErrorView, StorageError};
use crate::storage::record_map::pairs_of;
use crate::storage::sstable::SstableMetadata;
use crate::storage::steps::empty_key_error;
use crate::text::{decimal, has_prefix, is_text_of, push_decimal, text_of, utf8_lossy};

verus! {

/// Where the server listens.
#[derive(Clone, Debug, PartialEq, Eq)]
pub struct ServerConfig {
    pub listen_addr: String,
    pub dashboard_addr: Option<String>,
}

impl Default for ServerConfig {
    fn default() -> (config: Self)
        ensures
            config.listen_addr@ == "127.0.0.1:50051"@,
            config.dashboard_addr is Some,
            config.dashboard_addr->0@ == "127.0.0.1:8080"@,
    {
        ServerConfig {
            listen_addr: String::from_str("127.0.0.1:50051"),
            dashboard_addr: Some(String::from_str("127.0.0.1:8080")),
        }
    }
}

/// What kind of failure a request is answered with.
#[derive(Clone, Copy, Debug, PartialEq, Eq, Structural)]
pub enum StatusCode {
    InvalidArgument,
    DataLoss,
    Internal,
}

/// The failure that a request is answered with.
#[derive(Debug)]
pub struct Status {
    pub code: StatusCode,
    pub message: String,
}

/// The kind of failure that an error of the store is answered with.
pub open spec fn status_code(error: StorageError) -> StatusCode {
    match error {
        StorageError::InvalidInput(_) => StatusCode::InvalidArgument,
        StorageError::CorruptWal(_) => StatusCode::DataLoss,
        StorageError::CorruptSstable(_) => StatusCode::DataLoss,
        StorageError::Io(_) => StatusCode::Internal,
    }
}

/// What an error of the store is answered with: its text alone, without its kind.
pub open spec fn status_message(error: StorageError) -> Seq<char> {
    match error {
        StorageError::InvalidInput(message) => message@,
        StorageError::CorruptWal(message) => message@,
        StorageError::CorruptSstable(message) => message@,
        StorageError::Io(error) => error.message@,
    }
}

/// The failure that an error of the store is answered with.
pub fn storage_error_to_status(error: StorageError) -> (status: Status)
    ensures
        status.code == status_code(error),
        status.message@ == status_message(error),
        error matches StorageError::InvalidInput(message) ==> status.code
            == StatusCode::InvalidArgument && status.message@ == message@,
        error matches StorageError::CorruptWal(message) ==> status.code == StatusCode::DataLoss
            && status.message@ == message@,
        error matches StorageError::CorruptSstable(message) ==> status.code
            == StatusCode::DataLoss && status.message@ == message@,
        error matches StorageError::Io(inner) ==> status.code == StatusCode::Internal
            && status.message@ == inner.message@,
{
    match error {
        StorageError::InvalidInput(message) => Status {
            code: StatusCode::InvalidArgument,
            message,
        },
        StorageError::CorruptWal(message) => Status { code: StatusCode::DataLoss, message },
        StorageError::CorruptSstable(message) => Status { code: StatusCode::DataLoss, message },
        StorageError::Io(error) => Status { code: StatusCode::Internal, message: error.message },
    }
}

/// A request with an empty key is answered as an invalid one, with the reason.
pub proof fn law_empty_key_is_answered(error: StorageError)
    requires
        error@ == empty_key_error(),
    ensures
        status_code(error) == StatusCode::InvalidArgument,
        status_message(error) == "keys must not be empty"@,
{
}

/// The answer to a lookup.
#[derive(Debug, PartialEq, Eq)]
pub struct GetResponse {
    pub value: String,
    pub found: bool,
}

/// Answers a lookup: the value as text, and whether there was one.
pub fn get_response(value: Option<Vec<u8>>) -> (response: GetResponse)
    ensures
        response.found == (value is Some),
        value is Some ==> is_text_of(response.value@, value->0@),
        value is None ==> response.value@ == Seq::<char>::empty(),
{
    match value {
        Some(bytes) => GetResponse { value: text_of(bytes.as_slice()), found: true },
        None => {
            proof {
                reveal_strlit("");
            }
            let value = String::from_str("");
            assert(value@ =~= Seq::<char>::empty());
            GetResponse { value, found: false }
        },
    }
}

/// A row of the answer to a scan.
#[derive(Debug, PartialEq, Eq)]
pub struct ScanResponse {
    pub key: String,
    pub value: String,
}

/// A row as text.
pub open spec fn text_row(row: (Seq<u8>, Seq<u8>)) -> (Seq<char>, Seq<char>) {
    (utf8_lossy(row.0), utf8_lossy(row.1))
}

/// Rows of an answer as contracts speak of them.
pub open spec fn scan_rows(rows: Seq<ScanResponse>) -> Seq<(Seq<char>, Seq<char>)> {
    rows.map_values(|row: ScanResponse| (row.key@, row.value@))
}

/// Answers a scan: each row as text, in the order of the rows.
pub fn scan_responses(rows: Vec<(Vec<u8>, Vec<u8>)>) -> (responses: Vec<ScanResponse>)
    ensures
        scan_rows(responses@) == pairs_of(rows@).map_values(
            |row: (Seq<u8>, Seq<u8>)| text_row(row),
        ),
        responses.len() == rows.len(),
        forall|j: int|
            0 <= j < rows.len() ==> is_text_of((#[trigger] responses@[j]).key@, rows@[j].0@)
                && is_text_of(responses@[j].value@, rows@[j].1@),
{
    let mut responses: Vec<ScanResponse> = Vec::new();
    let mut i: usize = 0;
    while i < rows.len()
        invariant
            i <= rows.len(),
            responses.len() == i,
            forall|j: int|
                0 <= j < i ==> is_text_of((#[trigger] responses@[j]).key@, rows@[j].0@)
                    && is_text_of(responses@[j].value@, rows@[j].1@),
        decreases rows.len() - i,
    {
        responses.push(
            ScanResponse {
                key: text_of(rows[i].0.as_slice()),
                value: text_of(rows[i].1.as_slice()),
            },
        );
        i += 1;
    }
    assert(scan_rows(responses@) =~= pairs_of(rows@).map_values(
        |row: (Seq<u8>, Seq<u8>)| text_row(row),
    ));
    responses
}

/// How many rows a scan may give: none asked for means as many as there are.
pub fn scan_limit(limit: u32) -> (rows: usize)
    ensures
        rows == if limit == 0 {
            usize::MAX
        } else {
            limit as usize
        },
{
    if limit == 0 {
        usize::MAX
    } else {
        limit as usize
    }
}

/// The answer to a flush.
#[derive(Clone, Copy, Debug, PartialEq, Eq, Structural)]
pub struct FlushResponse {
    pub flushed: bool,
    pub sstable_id: u64,
    pub entries: u64,
}

/// Answers a flush.
pub fn flush_response(metadata: Option<SstableMetadata>) -> (response: FlushResponse)
    ensures
        response == match metadata {
            Some(metadata) => (FlushResponse {
                flushed: true,
                sstable_id: metadata.id.0,
                entries: metadata.entry_count,
            }),
            None => (FlushResponse { flushed: false, sstable_id: 0, entries: 0 }),
        },
{
    match metadata {
        Some(metadata) => FlushResponse {
            flushed: true,
            sstable_id: metadata.id.0,
            entries: metadata.entry_count,
        },
        None => FlushResponse { flushed: false, sstable_id: 0, entries: 0 },
    }
}

/// The answer to a compaction.
#[derive(Clone, Copy, Debug, PartialEq, Eq, Structural)]
pub struct CompactResponse {
    pub flushed_memtable: bool,
    pub input_sstables: u64,
    pub output_sstables: u64,
    pub input_entries: u64,
    pub output_entries: u64,
    pub dropped_entries: u64,
}

/// Answers a compaction with its report.
pub fn compact_response(report: CompactionReport) -> (response: CompactResponse)
    ensures
        response.flushed_memtable == report.flushed_memtable,
        response.input_sstables == report.input_sstables,
        response.output_sstables == report.output_sstables,
        response.input_entries == report.input_entries,
        response.output_entries == report.output_entries,
        response.dropped_entries == report.dropped_entries,
{
    CompactResponse {
        flushed_memtable: report.flushed_memtable,
        input_sstables: report.input_sstables as u64,
        output_sstables: report.output_sstables as u64,
        input_entries: report.input_entries,
        output_entries: report.output_entries,
        dropped_entries: report.dropped_entries,
    }
}

/// The answer to a question for the store's state.
#[derive(Clone, Copy, Debug, PartialEq, Eq, Structural)]
pub struct StatsResponse {
    pub memtable_entries: u64,
    pub memtable_bytes: u64,
    pub flush_threshold_bytes: u64,
    pub should_flush: bool,
    pub sstable_count: u64,
    pub bloom_filter_count: u64,
    pub next_sstable_id: u64,
}

/// Answers a question for the store's state.
pub fn stats_response(stats: StorageStats) -> (response: StatsResponse)
    ensures
        response.memtable_entries == stats.memtable_entries,
        response.memtable_bytes == stats.memtable_bytes,
        response.flush_threshold_bytes == stats.flush_threshold_bytes,
        response.should_flush == stats.should_flush,
        response.sstable_count == stats.sstable_count,
        response.bloom_filter_count == stats.bloom_filter_count,
        response.next_sstable_id == stats.next_sstable_id,
{
    StatsResponse {
        memtable_entries: stats.memtable_entries as u64,
        memtable_bytes: stats.memtable_bytes as u64,
        flush_threshold_bytes: stats.flush_threshold_bytes as u64,
        should_flush: stats.should_flush,
        sstable_count: stats.sstable_count as u64,
        bloom_filter_count: stats.bloom_filter_count as u64,
        next_sstable_id: stats.next_sstable_id,
    }
}

// Watching.

/// What happened to a key.
#[derive(Clone, Copy, Debug, PartialEq, Eq, Structural)]
pub enum WatchEvent {
    Unspecified,
    Put,
    Delete,
}

impl WatchEvent {
    /// The number that stands for an event in a message.
    pub open spec fn number(self) -> i32 {
        match self {
            WatchEvent::Unspecified => 0,
            WatchEvent::Put => 1,
            WatchEvent::Delete => 2,
        }
    }

    /// The number that stands for an event in a message.
    pub fn to_number(self) -> (number: i32)
        ensures
            number == self.number(),
    {
        match self {
            WatchEvent::Unspecified => 0,
            WatchEvent::Put => 1,
            WatchEvent::Delete => 2,
        }
    }

    /// The event that a number stands for; a number that stands for none is an
    /// event that nothing is known of.
    pub fn from_number(number: i32) -> (event: Self)
        ensures
            event == event_of(number),
    {
        if number == 1 {
            WatchEvent::Put
        } else if number == 2 {
            WatchEvent::Delete
        } else {
            WatchEvent::Unspecified
        }
    }
}

/// The event that a number stands for.
pub open spec fn event_of(number: i32) -> WatchEvent {
    if number == 1 {
        WatchEvent::Put
    } else if number == 2 {
        WatchEvent::Delete
    } else {
        WatchEvent::Unspecified
    }
}

/// The number of an event stands for that event.
pub proof fn law_event_numbers(event: WatchEvent)
    ensures
        event_of(event.number()) == event,
{
}

/// What watchers are told.
#[derive(Debug, PartialEq, Eq)]
pub struct WatchResponse {
    pub key: String,
    pub value: String,
    pub event: i32,
}

/// What watchers are told, as contracts speak of it.
pub struct WatchView {
    pub key: Seq<char>,
    pub value: Seq<char>,
    pub event: i32,
}

impl View for WatchResponse {
    type V = WatchView;

    open spec fn view(&self) -> WatchView {
        WatchView { key: self.key@, value: self.value@, event: self.event }
    }
}

impl Clone for WatchResponse {
    fn clone(&self) -> (copy: Self)
        ensures
            copy == *self,
    {
        WatchResponse { key: self.key.clone(), value: self.value.clone(), event: self.event }
    }
}

/// What watchers are told of a put.
pub open spec fn put_event(key: Seq<char>, value: Seq<char>) -> WatchView {
    WatchView { key, value, event: WatchEvent::Put.number() }
}

/// What watchers are told of a delete.
pub open spec fn delete_event(key: Seq<char>) -> WatchView {
    WatchView { key, value: Seq::empty(), event: WatchEvent::Delete.number() }
}

/// What watchers are told of an event.
pub fn watch_event(event: WatchEvent, key: String, value: String) -> (told: WatchResponse)
    ensures
        told@ == (WatchView { key: key@, value: value@, event: event.number() }),
        told.key@ == key@,
        told.value@ == value@,
{
    WatchResponse { key, value, event: event.to_number() }
}

/// The answer to a write, and what watchers are told of it.
#[derive(Debug)]
pub struct WriteReply {
    pub response: Result<bool, Status>,
    pub announce: Option<WatchResponse>,
}

/// What a write is answered: success, and watchers are told; or the failure, and
/// nobody is told anything.
pub open spec fn write_reply(
    reply: WriteReply,
    result: Result<(), StorageError>,
    event: WatchView,
) -> bool {
    match result {
        Ok(_) => reply.response == Ok::<bool, Status>(true) && reply.announce is Some
            && reply.announce->0@ == event,
        Err(error) => {
            &&& reply.response is Err
            &&& reply.response->Err_0.code == status_code(error)
            &&& reply.response->Err_0.message@ == status_message(error)
            &&& reply.announce is None
        },
    }
}

/// Answers a put that went as `result` says.
pub fn put_reply(key: String, value: String, result: Result<(), StorageError>) -> (reply:
    WriteReply)
    ensures
        write_reply(reply, result, put_event(key@, value@)),
        result is Ok <==> reply.response is Ok,
        result is Ok ==> reply.response == Ok::<bool, Status>(true),
        result is Ok <==> reply.announce is Some,
        reply.announce matches Some(told) ==> told.key@ == key@ && told.value@ == value@
            && told.event == 1,
        result matches Err(error) ==> reply.response->Err_0.code == status_code(error)
            && reply.response->Err_0.message@ == status_message(error),
{
    match result {
        Ok(_) => WriteReply {
            response: Ok(true),
            announce: Some(watch_event(WatchEvent::Put, key, value)),
        },
        Err(error) => WriteReply {
            response: Err(storage_error_to_status(error)),
            announce: None,
        },
    }
}

/// Answers a delete that went as `result` says.
pub fn delete_reply(key: String, result: Result<(), StorageError>) -> (reply: WriteReply)
    ensures
        write_reply(reply, result, delete_event(key@)),
        result is Ok <==> reply.response is Ok,
        result is Ok ==> reply.response == Ok::<bool, Status>(true),
        result is Ok <==> reply.announce is Some,
        reply.announce matches Some(told) ==> told.key@ == key@ && told.value@.len() == 0
            && told.event == 2,
        result matches Err(error) ==> reply.response->Err_0.code == status_code(error)
            && reply.response->Err_0.message@ == status_message(error),
{
    match result {
        Ok(_) => {
            proof {
                reveal_strlit("");
            }
            let nothing = String::from_str("");
            assert(nothing@ =~= Seq::<char>::empty());
            WriteReply {
                response: Ok(true),
                announce: Some(watch_event(WatchEvent::Delete, key, nothing)),
            }
        },
        Err(error) => WriteReply {
            response: Err(storage_error_to_status(error)),
            announce: None,
        },
    }
}

/// What a watcher of a prefix gets when it is told something, or was told that it
/// missed `skipped` events: an event whose key has the prefix; nothing for another
/// key; and a failure where events were missed.
pub fn watch_item(prefix: &str, told: Result<WatchResponse, u64>) -> (item: Option<
    Result<WatchResponse, Status>,
>)
    ensures
        match told {
            Ok(event) => {
                &&& item is Some <==> prefix@.is_prefix_of(event.key@)
                &&& item is Some ==> item->0 == Ok::<WatchResponse, Status>(event)
            },
            Err(skipped) => {
                &&& item is Some && item->0 is Err
                &&& item->0->Err_0.code == StatusCode::DataLoss
                &&& item->0->Err_0.message@ == "watch lagged by "@ + decimal(skipped as nat)
                    + " events"@
            },
        },
{
    match told {
        Ok(event) => if has_prefix(event.key.as_str(), prefix) {
            Some(Ok(event))
        } else {
            None
        },
        Err(skipped) => {
            let mut message = String::from_str("watch lagged by ");
            push_decimal(&mut message, skipped);
            message.append(" events");
            Some(Err(Status { code: StatusCode::DataLoss, message }))
        },
    }
}

/// An error of the store is answered by its kind, with its message and nothing else:
/// a refused input as an invalid argument, a file that does not read as a loss of data,
/// and a failure of the file system as an internal one.
pub proof fn law_errors_are_answered_by_kind(error: StorageError)
    ensures
        status_code(error) == match error@ {
            ErrorView::InvalidInput(_) => StatusCode::InvalidArgument,
            ErrorView::CorruptWal(_) => StatusCode::DataLoss,
            ErrorView::CorruptSstable(_) => StatusCode::DataLoss,
            ErrorView::Io(_, _) => StatusCode::Internal,
        },
        status_message(error) == match error@ {
            ErrorView::InvalidInput(message) => message,
            ErrorView::CorruptWal(message) => message,
            ErrorView::CorruptSstable(message) => message,
            ErrorView::Io(_, message) => message,
        },
{
}

/// The events have the numbers that stand for them in messages, and every other number
/// is an event that nothing is known of.
pub proof fn law_numbers_of_events(number: i32)
    ensures
        WatchEvent::Unspecified.number() == 0,
        WatchEvent::Put.number() == 1,
        WatchEvent::Delete.number() == 2,
        event_of(1) == WatchEvent::Put,
        event_of(2) == WatchEvent::Delete,
        number != 1 && number != 2 ==> event_of(number) == WatchEvent::Unspecified,
{
}

/// Watchers are told the key and the value of a put, and the key of a delete.
pub proof fn law_watchers_are_told_the_write(key: Seq<char>, value: Seq<char>)
    ensures
        put_event(key, value).key == key,
        put_event(key, value).value == value,
        event_of(put_event(key, value).event) == WatchEvent::Put,
        delete_event(key).key == key,
        delete_event(key).value.len() == 0,
        event_of(delete_event(key).event) == WatchEvent::Delete,
{
}

/// What watchers are told is spoken of as it is.
pub proof fn law_view_of_what_is_told(told: WatchResponse)
    ensures
        told@.key == told.key@,
        told@.value == told.value@,
        told@.event == told.event,
{
}

/// A write is announced exactly if it succeeded, and announced as what it was.
pub proof fn law_write_reply(
    reply: WriteReply,
    result: Result<(), StorageError>,
    event: WatchView,
)
    requires
        write_reply(reply, result, event),
    ensures
        result is Ok <==> reply.response is Ok,
        result is Ok <==> reply.announce is Some,
        reply.response matches Ok(success) ==> success,
        reply.announce matches Some(told) ==> told.key@ == event.key && told.value@ == event.value
            && told.event == event.event,
        reply.response matches Err(status) ==> status.code == status_code(result->Err_0)
            && status.message@ == status_message(result->Err_0),
{
}

/// The rows of an answer are the texts of the keys and values of the rows, in their
/// order.
pub proof fn law_rows_of_an_answer(rows: Seq<ScanResponse>, row: (Seq<u8>, Seq<u8>))
    ensures
        scan_rows(rows).len() == rows.len(),
        forall|i: int|
            0 <= i < rows.len() ==> (#[trigger] scan_rows(rows)[i]).0 == rows[i].key@ && scan_rows(
                rows,
            )[i].1 == rows[i].value@,
        text_row(row).0 == utf8_lossy(row.0),
        text_row(row).1 == utf8_lossy(row.1),
{
}

} // verus!
