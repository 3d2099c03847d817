//! The answers of the dashboard, and the runs of writes that it offers.
use vstd::prelude::*;
use vstd::string::StringExecFns;

use crate::server::grpc::{
    delete_event, event_of, put_event, text_row, watch_event, WatchEvent, WatchResponse, WatchView,
};
use crate::storage::compaction::CompactionReport;
use crate::storage::error::StorageError;
use crate::storage::record_map::pairs_of;
use crate::storage::sstable::SstableMetadata;
use crate::text::{
    decimal, is_decimal_of, is_text_of, law_decimal_shows_the_number, push_decimal, text_of,
};

verus! {

/// The answer to an action.
#[derive(Debug, PartialEq, Eq)]
pub struct ActionResponse {
    pub success: bool,
    pub message: String,
}

/// An answer to an action as contracts speak of it.
pub struct ActionView {
    pub success: bool,
    pub message: Seq<char>,
}

impl View for ActionResponse {
    type V = ActionView;

    open spec fn view(&self) -> ActionView {
        ActionView { success: self.success, message: self.message@ }
    }
}

/// The answer to an action that failed: the text of the error.
pub open spec fn failed(error: StorageError) -> ActionView {
    ActionView { success: false, message: error.text() }
}

/// Answers an action that failed.
fn failure(error: &StorageError) -> (response: ActionResponse)
    ensures
        response@ == failed(*error),
{
    ActionResponse { success: false, message: error.message() }
}

/// A row as text.
#[derive(Debug, PartialEq, Eq)]
pub struct RowResponseBody {
    pub key: String,
    pub value: String,
}

/// Rows as contracts speak of them.
pub open spec fn body_rows(rows: Seq<RowResponseBody>) -> Seq<(Seq<char>, Seq<char>)> {
    rows.map_values(|row: RowResponseBody| (row.key@, row.value@))
}

/// The answer to a lookup.
#[derive(Debug, PartialEq, Eq)]
pub struct GetResponseBody {
    pub found: bool,
    pub key: String,
    pub value: Option<String>,
}

/// Answers a lookup: the value as text; no value; or the error in place of it.
pub fn get_body(key: String, result: Result<Option<Vec<u8>>, StorageError>) -> (body:
    GetResponseBody)
    ensures
        body.key@ == key@,
        match result {
            Ok(Some(value)) => {
                &&& body.found && body.value is Some && is_text_of(body.value->0@, value@)
            },
            Ok(None) => !body.found && body.value is None,
            Err(error) => !body.found && body.value is Some && body.value->0@ == "error: "@
                + error.text(),
        },
{
    match result {
        Ok(Some(value)) => GetResponseBody {
            found: true,
            key,
            value: Some(text_of(value.as_slice())),
        },
        Ok(None) => GetResponseBody { found: false, key, value: None },
        Err(error) => {
            let mut text = String::from_str("error: ");
            text.append(error.message().as_str());
            GetResponseBody { found: false, key, value: Some(text) }
        },
    }
}

/// How many rows a scan gives: a hundred unless asked otherwise, and never more
/// than five hundred.
pub fn dashboard_scan_limit(limit: Option<usize>) -> (rows: usize)
    ensures
        rows == match limit {
            None => 100usize,
            Some(wanted) => if wanted < 500 {
                wanted
            } else {
                500
            },
        },
{
    match limit {
        None => 100,
        Some(wanted) => if wanted < 500 {
            wanted
        } else {
            500
        },
    }
}

/// Answers a scan: each row as text, in the order of the rows; no rows where the
/// scan failed.
pub fn scan_body(result: Result<Vec<(Vec<u8>, Vec<u8>)>, StorageError>) -> (rows: Vec<
    RowResponseBody,
>)
    ensures
        body_rows(rows@) == match result {
            Ok(found) => pairs_of(found@).map_values(|row: (Seq<u8>, Seq<u8>)| text_row(row)),
            Err(_) => Seq::empty(),
        },
        result matches Ok(found) ==> rows.len() == found.len(),
        result is Err ==> rows.len() == 0,
        result matches Ok(found) ==> forall|j: int|
            0 <= j < found.len() ==> is_text_of((#[trigger] rows@[j]).key@, found@[j].0@)
                && is_text_of(rows@[j].value@, found@[j].1@),
{
    let mut rows: Vec<RowResponseBody> = Vec::new();
    let found = match result {
        Ok(found) => found,
        Err(_) => {
            assert(body_rows(rows@) =~= Seq::empty());
            return rows;
        },
    };
    let mut i: usize = 0;
    while i < found.len()
        invariant
            i <= found.len(),
            rows.len() == i,
            forall|j: int|
                0 <= j < i ==> is_text_of((#[trigger] rows@[j]).key@, found@[j].0@)
                    && is_text_of(rows@[j].value@, found@[j].1@),
        decreases found.len() - i,
    {
        rows.push(
            RowResponseBody {
                key: text_of(found[i].0.as_slice()),
                value: text_of(found[i].1.as_slice()),
            },
        );
        i += 1;
    }
    assert(body_rows(rows@) =~= pairs_of(found@).map_values(
        |row: (Seq<u8>, Seq<u8>)| text_row(row),
    ));
    rows
}

/// The answer to a write, and what watchers are told of it.
#[derive(Debug)]
pub struct ActionReply {
    pub response: ActionResponse,
    pub announce: Option<WatchResponse>,
}

/// Answers a put that went as `result` says.
pub fn put_body(key: String, value: String, result: Result<(), StorageError>) -> (reply:
    ActionReply)
    ensures
        match result {
            Ok(_) => {
                &&& reply.response@ == (ActionView { success: true, message: "stored "@ + key@ })
                &&& reply.announce is Some && reply.announce->0@ == put_event(key@, value@)
            },
            Err(error) => reply.response@ == failed(error) && reply.announce is None,
        },
        reply.announce matches Some(told) ==> told.key@ == key@ && told.value@ == value@
            && told.event == 1,
        result matches Err(error) ==> !reply.response.success && reply.response.message@
            == error.text(),
{
    match result {
        Ok(_) => {
            let mut message = String::from_str("stored ");
            message.append(key.as_str());
            ActionReply {
                response: ActionResponse { success: true, message },
                announce: Some(watch_event(WatchEvent::Put, key, value)),
            }
        },
        Err(error) => ActionReply { response: failure(&error), announce: None },
    }
}

/// Answers a delete that went as `result` says.
pub fn delete_body(key: String, result: Result<(), StorageError>) -> (reply: ActionReply)
    ensures
        match result {
            Ok(_) => {
                &&& reply.response@ == (ActionView { success: true, message: "deleted "@ + key@ })
                &&& reply.announce is Some && reply.announce->0@ == delete_event(key@)
            },
            Err(error) => reply.response@ == failed(error) && reply.announce is None,
        },
        reply.announce matches Some(told) ==> told.key@ == key@ && told.value@.len() == 0
            && told.event == 2,
        result matches Err(error) ==> !reply.response.success && reply.response.message@
            == error.text(),
{
    match result {
        Ok(_) => {
            let mut message = String::from_str("deleted ");
            message.append(key.as_str());
            proof {
                reveal_strlit("");
            }
            let nothing = String::from_str("");
            assert(nothing@ =~= Seq::<char>::empty());
            ActionReply {
                response: ActionResponse { success: true, message },
                announce: Some(watch_event(WatchEvent::Delete, key, nothing)),
            }
        },
        Err(error) => ActionReply { response: failure(&error), announce: None },
    }
}

/// Answers a flush that went as `result` says.
pub fn flush_body(result: Result<Option<SstableMetadata>, StorageError>) -> (response:
    ActionResponse)
    ensures
        response@ == match result {
            Ok(Some(metadata)) => (ActionView {
                success: true,
                message: "flushed SSTable "@ + decimal(metadata.id.0 as nat) + " with "@ + decimal(
                    metadata.entry_count as nat,
                ) + " entries"@,
            }),
            Ok(None) => (ActionView { success: true, message: "nothing to flush"@ }),
            Err(error) => failed(error),
        },
{
    match result {
        Ok(Some(metadata)) => {
            let mut message = String::from_str("flushed SSTable ");
            push_decimal(&mut message, metadata.id.0);
            message.append(" with ");
            push_decimal(&mut message, metadata.entry_count);
            message.append(" entries");
            ActionResponse { success: true, message }
        },
        Ok(None) => ActionResponse {
            success: true,
            message: String::from_str("nothing to flush"),
        },
        Err(error) => failure(&error),
    }
}

/// Answers a compaction that went as `result` says.
pub fn compact_body(result: Result<CompactionReport, StorageError>) -> (response: ActionResponse)
    ensures
        response@ == match result {
            Ok(report) => (ActionView {
                success: true,
                message: "compacted "@ + decimal(report.input_sstables as nat)
                    + " SSTables into "@ + decimal(report.output_sstables as nat) + "; dropped "@
                    + decimal(report.dropped_entries as nat) + " entries"@,
            }),
            Err(error) => failed(error),
        },
{
    match result {
        Ok(report) => {
            let mut message = String::from_str("compacted ");
            push_decimal(&mut message, report.input_sstables as u64);
            message.append(" SSTables into ");
            push_decimal(&mut message, report.output_sstables as u64);
            message.append("; dropped ");
            push_decimal(&mut message, report.dropped_entries);
            message.append(" entries");
            ActionResponse { success: true, message }
        },
        Err(error) => failure(&error),
    }
}

/// The name of an event.
pub open spec fn event_name(event: WatchEvent) -> Seq<char> {
    match event {
        WatchEvent::Put => "put"@,
        WatchEvent::Delete => "delete"@,
        WatchEvent::Unspecified => "unknown"@,
    }
}

/// The name of the event that a number stands for.
pub fn watch_event_name(event: i32) -> (name: &'static str)
    ensures
        name@ == event_name(event_of(event)),
{
    match WatchEvent::from_number(event) {
        WatchEvent::Put => "put",
        WatchEvent::Delete => "delete",
        WatchEvent::Unspecified => "unknown",
    }
}

/// What the dashboard shows of an event.
#[derive(Debug, PartialEq, Eq)]
pub struct DashboardWatchEvent {
    pub key: String,
    pub value: String,
    pub event: String,
}

/// What the dashboard shows when it is told something; nothing where it was told
/// that it missed events.
pub fn dashboard_event(told: Result<WatchResponse, u64>) -> (shown: Option<DashboardWatchEvent>)
    ensures
        match told {
            Ok(event) => {
                &&& shown is Some
                &&& shown->0.key@ == event.key@
                &&& shown->0.value@ == event.value@
                &&& shown->0.event@ == event_name(event_of(event.event))
            },
            Err(_) => shown is None,
        },
{
    match told {
        Ok(event) => Some(
            DashboardWatchEvent {
                key: event.key,
                value: event.value,
                event: String::from_str(watch_event_name(event.event)),
            },
        ),
        Err(_) => None,
    }
}

// Importing rows.

/// The answer to an import.
#[derive(Debug, PartialEq, Eq)]
pub struct ImportResponseBody {
    pub success: bool,
    pub imported: usize,
    pub message: String,
}

/// An answer to an import as contracts speak of it.
pub struct ImportView {
    pub success: bool,
    pub imported: nat,
    pub message: Seq<char>,
}

impl View for ImportResponseBody {
    type V = ImportView;

    open spec fn view(&self) -> ImportView {
        ImportView {
            success: self.success,
            imported: self.imported as nat,
            message: self.message@,
        }
    }
}

/// An import under way: row `at` is being put.
#[derive(Debug)]
pub struct Import {
    rows: Vec<RowResponseBody>,
    at: usize,
    imported: usize,
}

/// An import as contracts speak of it.
#[verifier::ext_equal]
pub struct ImportState {
    pub rows: Seq<(Seq<char>, Seq<char>)>,
    pub at: nat,
    pub imported: nat,
}

impl View for Import {
    type V = ImportState;

    closed spec fn view(&self) -> ImportState {
        ImportState {
            rows: body_rows(self.rows@),
            at: self.at as nat,
            imported: self.imported as nat,
        }
    }
}

/// A step of an import: a row to put, or the end.
#[derive(Debug)]
pub enum ImportStep {
    Put { import: Import, key: String, value: String },
    Done(ImportResponseBody),
}

/// A step of an import as contracts speak of it.
pub enum ImportStepView {
    Put(ImportState, Seq<char>, Seq<char>),
    Done(ImportView),
}

impl View for ImportStep {
    type V = ImportStepView;

    open spec fn view(&self) -> ImportStepView {
        match self {
            ImportStep::Put { import, key, value } => ImportStepView::Put(import@, key@, value@),
            ImportStep::Done(body) => ImportStepView::Done(body@),
        }
    }
}

/// How an import goes on at a row: the next row with a key is put; behind the last
/// it ends.
pub open spec fn import_from(import: ImportState) -> ImportStepView
    decreases import.rows.len() - import.at,
{
    if import.at >= import.rows.len() {
        ImportStepView::Done(
            ImportView {
                success: true,
                imported: import.imported,
                message: "imported "@ + decimal(import.imported) + " rows"@,
            },
        )
    } else if import.rows[import.at as int].0.len() == 0 {
        import_from(ImportState { at: import.at + 1, ..import })
    } else {
        ImportStepView::Put(
            import,
            import.rows[import.at as int].0,
            import.rows[import.at as int].1,
        )
    }
}

/// How an import goes on when a row was put, or not, and what watchers are told.
pub open spec fn import_next(import: ImportState, result: Result<(), StorageError>) -> (
    ImportStepView,
    Option<WatchView>,
) {
    let row = import.rows[import.at as int];
    match result {
        Err(error) => (
            ImportStepView::Done(
                ImportView { success: false, imported: import.imported, message: error.text() },
            ),
            None,
        ),
        Ok(_) => (
            import_from(
                ImportState { at: import.at + 1, imported: import.imported + 1, ..import },
            ),
            Some(put_event(row.0, row.1)),
        ),
    }
}

/// What watchers are told, if anything, as contracts speak of it.
pub open spec fn told_view(told: Option<WatchResponse>) -> Option<WatchView> {
    match told {
        Some(event) => Some(event@),
        None => None,
    }
}

impl Import {
    /// The import is at a row that there is, and has not imported more rows than it
    /// has passed.
    pub closed spec fn wf(&self) -> bool {
        self.imported <= self.at < self.rows.len()
    }

    /// Begins to import rows.
    pub fn start(rows: Vec<RowResponseBody>) -> (step: ImportStep)
        ensures
            step@ == import_from(ImportState { rows: body_rows(rows@), at: 0, imported: 0 }),
            step matches ImportStep::Put { import, .. } ==> import.wf(),
            step matches ImportStep::Put { key, value, .. } ==> exists|i: int|
                0 <= i < rows.len() && key@ == (#[trigger] rows@[i]).key@ && value@
                    == rows@[i].value@ && key@.len() > 0 && forall|j: int|
                    0 <= j < i ==> (#[trigger] rows@[j]).key@.len() == 0,
            step matches ImportStep::Done(body) ==> body.success && body.imported == 0
                && forall|j: int| 0 <= j < rows.len() ==> (#[trigger] rows@[j]).key@.len() == 0,
    {
        proof {
            let start = ImportState { rows: body_rows(rows@), at: 0, imported: 0 };
            law_import_takes_the_next_row(start);
            if let ImportStepView::Put(next, _, _) = import_from(start) {
                assert(rows@[next.at as int].key@ == start.rows[next.at as int].0);
                assert forall|j: int| 0 <= j < next.at implies (#[trigger] rows@[j]).key@.len()
                    == 0 by {
                    assert(start.rows[j].0.len() == 0);
                }
            } else {
                assert forall|j: int| 0 <= j < rows.len() implies (#[trigger] rows@[j]).key@.len()
                    == 0 by {
                    assert(start.rows[j].0.len() == 0);
                }
            }
        }
        (Import { rows, at: 0, imported: 0 }).find_row()
    }

    /// Goes on to the next row with a key.
    fn find_row(self) -> (step: ImportStep)
        requires
            self.imported <= self.at <= self.rows.len(),
        ensures
            step@ == import_from(self@),
            step matches ImportStep::Put { import, .. } ==> import.wf(),
    {
        let mut current = self;
        while current.at < current.rows.len()
            invariant
                current.imported <= current.at <= current.rows.len(),
                import_from(self@) == import_from(current@),
            decreases current.rows.len() - current.at,
        {
            let ghost before = current@;
            if !is_empty(current.rows[current.at].key.as_str()) {
                let key = current.rows[current.at].key.clone();
                let value = current.rows[current.at].value.clone();
                return ImportStep::Put { import: current, key, value };
            }
            current.at = current.at + 1;
            assert(current@ =~= (ImportState { at: before.at + 1, ..before }));
        }
        let mut message = String::from_str("imported ");
        push_decimal(&mut message, current.imported as u64);
        message.append(" rows");
        ImportStep::Done(
            ImportResponseBody { success: true, imported: current.imported, message },
        )
    }

    /// Goes on when a row was put, or not. The second part is what watchers are told.
    pub fn next(self, result: Result<(), StorageError>) -> (step: (
        ImportStep,
        Option<WatchResponse>,
    ))
        requires
            self.wf(),
        ensures
            (step.0@, told_view(step.1)) == import_next(self@, result),
            step.0 matches ImportStep::Put { import, .. } ==> import.wf(),
    {
        if let Err(error) = result {
            let body = ImportResponseBody {
                success: false,
                imported: self.imported,
                message: error.message(),
            };
            return (ImportStep::Done(body), None);
        }
        let told = watch_event(
            WatchEvent::Put,
            self.rows[self.at].key.clone(),
            self.rows[self.at].value.clone(),
        );
        let ghost before = self@;
        let mut after = self;
        after.at = after.at + 1;
        after.imported = after.imported + 1;
        assert(after@ =~= (ImportState { at: before.at + 1, imported: before.imported + 1, ..before
        }));
        (after.find_row(), Some(told))
    }
}

/// Whether a text is empty.
fn is_empty(text: &str) -> (yes: bool)
    ensures
        yes == (text@.len() == 0),
{
    crate::text::chars_of(text).len() == 0
}

/// The rows of an import that are put: those with a key.
pub open spec fn keyed(rows: Seq<(Seq<char>, Seq<char>)>) -> Seq<(Seq<char>, Seq<char>)> {
    rows.filter(|row: (Seq<char>, Seq<char>)| row.0.len() > 0)
}

/// What an import answers and what watchers are told, where every row is put.
pub open spec fn import_all(step: ImportStepView, left: nat) -> (ImportView, Seq<WatchView>)
    decreases left,
{
    match step {
        ImportStepView::Done(body) => (body, Seq::empty()),
        ImportStepView::Put(import, _, _) => if left == 0 {
            arbitrary()
        } else {
            let (next, told) = import_next(import, Ok(()));
            let (body, more) = import_all(next, (left - 1) as nat);
            (body, seq![told->0] + more)
        },
    }
}

/// The first of the rows behind a row, filtered.
proof fn lemma_keyed_front(rows: Seq<(Seq<char>, Seq<char>)>)
    requires
        rows.len() > 0,
    ensures
        keyed(rows) == (if rows[0].0.len() > 0 {
            seq![rows[0]]
        } else {
            Seq::empty()
        }) + keyed(rows.skip(1)),
{
    let keep = |row: (Seq<char>, Seq<char>)| row.0.len() > 0;
    let one = seq![rows[0]];
    assert(rows =~= one + rows.skip(1));
    Seq::filter_distributes_over_add(one, rows.skip(1), keep);
    reveal(Seq::filter);
    assert(one.drop_last() =~= Seq::empty());
    assert(one.drop_last().filter(keep) =~= Seq::empty());
    assert(one.last() == rows[0]);
}

/// An import at a row that succeeds throughout puts all the rows with a key from
/// there on.
proof fn lemma_import_all(import: ImportState, left: nat)
    requires
        import.at <= import.rows.len(),
        left >= import.rows.len() - import.at,
    ensures
        ({
            let rest = keyed(import.rows.skip(import.at as int));
            let (body, told) = import_all(import_from(import), left);
            &&& body == (ImportView {
                success: true,
                imported: import.imported + rest.len(),
                message: "imported "@ + decimal(import.imported + rest.len()) + " rows"@,
            })
            &&& told == rest.map_values(|row: (Seq<char>, Seq<char>)| put_event(row.0, row.1))
        }),
    decreases import.rows.len() - import.at,
{
    let tail = import.rows.skip(import.at as int);
    let rest = keyed(tail);
    let event = |row: (Seq<char>, Seq<char>)| put_event(row.0, row.1);
    if import.at == import.rows.len() {
        reveal(Seq::filter);
        assert(tail =~= Seq::empty());
        assert(rest =~= Seq::empty());
        assert(rest.map_values(event) =~= Seq::empty());
    } else {
        lemma_keyed_front(tail);
        assert(tail.skip(1) =~= import.rows.skip(import.at as int + 1));
        let row = import.rows[import.at as int];
        if row.0.len() == 0 {
            lemma_import_all(ImportState { at: import.at + 1, ..import }, left);
            assert(rest =~= keyed(tail.skip(1)));
        } else {
            let next = ImportState {
                at: import.at + 1,
                imported: import.imported + 1,
                ..import
            };
            lemma_import_all(next, (left - 1) as nat);
            assert(rest.map_values(event) =~= seq![put_event(row.0, row.1)] + keyed(
                tail.skip(1),
            ).map_values(event));
        }
    }
}

/// Where every put succeeds, an import puts each row that has a key, tells
/// watchers of each in the order of the rows, and answers how many there were.
pub proof fn law_import_puts_the_rows_with_a_key(rows: Seq<(Seq<char>, Seq<char>)>)
    ensures
        ({
            let start = import_from(ImportState { rows, at: 0, imported: 0 });
            let (body, told) = import_all(start, rows.len());
            &&& body == (ImportView {
                success: true,
                imported: keyed(rows).len(),
                message: "imported "@ + decimal(keyed(rows).len()) + " rows"@,
            })
            &&& told == keyed(rows).map_values(
                |row: (Seq<char>, Seq<char>)| put_event(row.0, row.1),
            )
        }),
{
    lemma_import_all(ImportState { rows, at: 0, imported: 0 }, rows.len());
    assert(rows.skip(0) =~= rows);
}

// The demo.

/// A row of two texts.
fn row(key: &str, value: &str) -> (row: RowResponseBody)
    ensures
        row.key@ == key@,
        row.value@ == value@,
{
    RowResponseBody { key: String::from_str(key), value: String::from_str(value) }
}

/// The rows that the demo puts.
pub open spec fn demo_spec() -> Seq<(Seq<char>, Seq<char>)> {
    seq![
        ("user:1"@, "alice"@),
        ("user:2"@, "bob"@),
        ("user:3"@, "carol"@),
        ("order:1001"@, "paid"@),
        ("order:1002"@, "pending"@),
        ("feature:bloom"@, "enabled"@),
    ]
}

/// The rows that the demo puts.
pub fn demo_rows() -> (rows: Vec<RowResponseBody>)
    ensures
        body_rows(rows@) == demo_spec(),
        rows.len() == 6,
        rows@[0].key@ == "user:1"@ && rows@[0].value@ == "alice"@,
        rows@[1].key@ == "user:2"@ && rows@[1].value@ == "bob"@,
        rows@[2].key@ == "user:3"@ && rows@[2].value@ == "carol"@,
        rows@[3].key@ == "order:1001"@ && rows@[3].value@ == "paid"@,
        rows@[4].key@ == "order:1002"@ && rows@[4].value@ == "pending"@,
        rows@[5].key@ == "feature:bloom"@ && rows@[5].value@ == "enabled"@,
{
    let mut rows: Vec<RowResponseBody> = Vec::new();
    rows.push(row("user:1", "alice"));
    rows.push(row("user:2", "bob"));
    rows.push(row("user:3", "carol"));
    rows.push(row("order:1001", "paid"));
    rows.push(row("order:1002", "pending"));
    rows.push(row("feature:bloom", "enabled"));
    assert(body_rows(rows@) =~= demo_spec());
    rows
}

/// Answers the demo, given what the import of its rows would be answered.
pub fn demo_body(body: ImportResponseBody) -> (response: ActionResponse)
    ensures
        response@ == if body.success {
            (ActionView { success: true, message: "seeded demo keys"@ })
        } else {
            (ActionView { success: false, message: body.message@ })
        },
{
    if body.success {
        ActionResponse { success: true, message: String::from_str("seeded demo keys") }
    } else {
        ActionResponse { success: false, message: body.message }
    }
}

// What imports and the dashboard's answers are.

/// An import at a row goes on to the first row from there that has a key, with that
/// row's key and value; where there is none, it ends, and answers how many rows it has
/// put.
pub proof fn law_import_takes_the_next_row(import: ImportState)
    ensures
        match import_from(import) {
            ImportStepView::Put(next, key, value) => {
                &&& import.at <= next.at < import.rows.len()
                &&& next.rows == import.rows
                &&& next.imported == import.imported
                &&& key == import.rows[next.at as int].0
                &&& value == import.rows[next.at as int].1
                &&& key.len() > 0
                &&& forall|j: int|
                    import.at <= j < next.at ==> (#[trigger] import.rows[j]).0.len() == 0
            },
            ImportStepView::Done(body) => {
                &&& body.success
                &&& body.imported == import.imported
                &&& shows_imported(body.message, import.imported)
                &&& forall|j: int|
                    import.at <= j < import.rows.len() ==> (#[trigger] import.rows[j]).0.len() == 0
            },
        },
    decreases import.rows.len() - import.at,
{
    law_decimal_shows_the_number(import.imported);
    if import.at < import.rows.len() && import.rows[import.at as int].0.len() == 0 {
        law_import_takes_the_next_row(ImportState { at: import.at + 1, ..import });
    }
}

/// Whether a message tells how many rows were imported, in decimal.
pub open spec fn shows_imported(message: Seq<char>, count: nat) -> bool {
    exists|digits: Seq<char>| #[trigger]
        is_decimal_of(digits, count) && message == "imported "@ + digits + " rows"@
}

/// An import whose row was put goes on behind that row, with one more row put, and
/// watchers are told of the put; one whose row was not put ends there, answers the error
/// and how many rows it has put, and nobody is told anything.
pub proof fn law_import_goes_on(import: ImportState, result: Result<(), StorageError>)
    requires
        import.at < import.rows.len(),
    ensures
        ({
            let (step, told) = import_next(import, result);
            match result {
                Ok(_) => {
                    &&& told is Some
                    &&& told->0.key == import.rows[import.at as int].0
                    &&& told->0.value == import.rows[import.at as int].1
                    &&& told->0.event == 1
                    &&& match step {
                        ImportStepView::Put(next, key, value) => {
                            &&& import.at < next.at < import.rows.len()
                            &&& next.rows == import.rows
                            &&& next.imported == import.imported + 1
                            &&& key == import.rows[next.at as int].0
                            &&& value == import.rows[next.at as int].1
                            &&& key.len() > 0
                            &&& forall|j: int|
                                import.at < j < next.at ==> (#[trigger] import.rows[j]).0.len()
                                    == 0
                        },
                        ImportStepView::Done(body) => {
                            &&& body.success
                            &&& body.imported == import.imported + 1
                            &&& shows_imported(body.message, import.imported + 1)
                            &&& forall|j: int|
                                import.at < j < import.rows.len() ==> (
                                #[trigger] import.rows[j]).0.len() == 0
                        },
                    }
                },
                Err(error) => {
                    &&& told is None
                    &&& step is Done
                    &&& !step->Done_0.success
                    &&& step->Done_0.imported == import.imported
                    &&& step->Done_0.message == error.text()
                },
            }
        }),
{
    law_import_takes_the_next_row(
        ImportState { at: import.at + 1, imported: import.imported + 1, ..import },
    );
}

/// The keys and values that the steps of an import ask to put, where every put
/// succeeds.
pub open spec fn import_puts(step: ImportStepView, left: nat) -> Seq<(Seq<char>, Seq<char>)>
    decreases left,
{
    match step {
        ImportStepView::Done(_) => Seq::empty(),
        ImportStepView::Put(import, key, value) => if left == 0 {
            Seq::empty()
        } else {
            seq![(key, value)] + import_puts(import_next(import, Ok(())).0, (left - 1) as nat)
        },
    }
}

/// From a row on, an import asks to put the rows with a key, one after the other.
proof fn lemma_import_puts(import: ImportState, left: nat)
    requires
        import.at <= import.rows.len(),
        left >= import.rows.len() - import.at,
    ensures
        import_puts(import_from(import), left) == import.rows.skip(import.at as int).filter(
            |row: (Seq<char>, Seq<char>)| row.0.len() > 0,
        ),
    decreases import.rows.len() - import.at,
{
    let tail = import.rows.skip(import.at as int);
    if import.at == import.rows.len() {
        reveal(Seq::filter);
        assert(tail =~= Seq::empty());
        assert(keyed(tail) =~= Seq::empty());
    } else {
        lemma_keyed_front(tail);
        assert(tail.skip(1) =~= import.rows.skip(import.at as int + 1));
        let row = import.rows[import.at as int];
        if row.0.len() == 0 {
            lemma_import_puts(ImportState { at: import.at + 1, ..import }, left);
            assert(keyed(tail) =~= keyed(tail.skip(1)));
        } else {
            lemma_import_puts(
                ImportState { at: import.at + 1, imported: import.imported + 1, ..import },
                (left - 1) as nat,
            );
        }
    }
}

/// What the steps of an import ask to put, where every put succeeds, is the given rows
/// that have a key, each with its value, in their order.
pub proof fn law_import_asks_for_the_rows(rows: Seq<(Seq<char>, Seq<char>)>)
    ensures
        import_puts(import_from(ImportState { rows, at: 0, imported: 0 }), rows.len())
            == rows.filter(|row: (Seq<char>, Seq<char>)| row.0.len() > 0),
{
    lemma_import_puts(ImportState { rows, at: 0, imported: 0 }, rows.len());
    assert(rows.skip(0) =~= rows);
}

/// The rows of an import are spoken of by their keys and values, as they are.
pub proof fn law_view_of_rows(rows: Seq<RowResponseBody>)
    ensures
        body_rows(rows).len() == rows.len(),
        forall|i: int|
            0 <= i < rows.len() ==> (#[trigger] body_rows(rows)[i]).0 == rows[i].key@ && body_rows(
                rows,
            )[i].1 == rows[i].value@,
{
}

/// Answers and steps of an import are spoken of as they are.
pub proof fn law_view_of_answers(
    answer: ActionResponse,
    body: ImportResponseBody,
    told: WatchResponse,
)
    ensures
        answer@.success == answer.success,
        answer@.message == answer.message@,
        body@.success == body.success,
        body@.imported == body.imported,
        body@.message == body.message@,
        told_view(Some(told)) == Some(told@),
        told_view(None) is None,
{
}

/// A step of an import is spoken of by what it asks to put, or by how it ended.
pub proof fn law_view_of_a_step(step: ImportStep)
    ensures
        step matches ImportStep::Put { import, key, value } ==> step@ == ImportStepView::Put(
            import@,
            key@,
            value@,
        ),
        step matches ImportStep::Done(body) ==> step@ == ImportStepView::Done(body@),
{
}

/// An action that failed is answered as such, with the text of the error.
pub proof fn law_failed_action(error: StorageError)
    ensures
        !failed(error).success,
        failed(error).message == error.text(),
{
}

/// The events have the names that the dashboard shows of them.
pub proof fn law_event_names()
    ensures
        event_name(WatchEvent::Put) == "put"@,
        event_name(WatchEvent::Delete) == "delete"@,
        event_name(WatchEvent::Unspecified) == "unknown"@,
{
}

} // verus!
