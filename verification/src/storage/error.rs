//! What can go wrong.
use vstd::prelude::*;
use vstd::string::StringExecFns;

verus! {

/// The failures of the file system that the engine tells apart.
#[derive(Clone, Copy, Debug, PartialEq, Eq, Structural)]
pub enum IoErrorKind {
    NotFound,
    UnexpectedEof,
    Other,
}

/// A failure of the file system, with the text that describes it.
#[derive(Debug)]
pub struct IoError {
    pub kind: IoErrorKind,
    pub message: String,
}

/// Why an operation of the store failed.
#[derive(Debug)]
pub enum StorageError {
    Io(IoError),
    CorruptWal(String),
    CorruptSstable(String),
    InvalidInput(String),
}

/// An error as contracts speak of it.
pub enum ErrorView {
    Io(IoErrorKind, Seq<char>),
    CorruptWal(Seq<char>),
    CorruptSstable(Seq<char>),
    InvalidInput(Seq<char>),
}

impl View for StorageError {
    type V = ErrorView;

    open spec fn view(&self) -> ErrorView {
        match self {
            StorageError::Io(error) => ErrorView::Io(error.kind, error.message@),
            StorageError::CorruptWal(message) => ErrorView::CorruptWal(message@),
            StorageError::CorruptSstable(message) => ErrorView::CorruptSstable(message@),
            StorageError::InvalidInput(message) => ErrorView::InvalidInput(message@),
        }
    }
}

impl StorageError {
    /// The text of the error, with its kind in front.
    pub open spec fn text(self) -> Seq<char> {
        match self {
            StorageError::Io(error) => "I/O error: "@ + error.message@,
            StorageError::CorruptWal(message) => "corrupt WAL: "@ + message@,
            StorageError::CorruptSstable(message) => "corrupt SSTable: "@ + message@,
            StorageError::InvalidInput(message) => "invalid input: "@ + message@,
        }
    }

    /// Writes the error out, with its kind in front.
    pub fn message(&self) -> (text: String)
        ensures
            text@ == self.text(),
    {
        match self {
            StorageError::Io(error) => {
                let mut text = String::from_str("I/O error: ");
                text.append(error.message.as_str());
                text
            },
            StorageError::CorruptWal(message) => {
                let mut text = String::from_str("corrupt WAL: ");
                text.append(message.as_str());
                text
            },
            StorageError::CorruptSstable(message) => {
                let mut text = String::from_str("corrupt SSTable: ");
                text.append(message.as_str());
                text
            },
            StorageError::InvalidInput(message) => {
                let mut text = String::from_str("invalid input: ");
                text.append(message.as_str());
                text
            },
        }
    }
}

/// What a result says, by the views of what it holds.
pub open spec fn outcome<T: View>(result: Result<T, StorageError>) -> Result<T::V, ErrorView> {
    match result {
        Ok(value) => Ok(value@),
        Err(error) => Err(error@),
    }
}

/// The error of a file that ends too early.
pub open spec fn eof_error() -> ErrorView {
    ErrorView::Io(IoErrorKind::UnexpectedEof, "failed to fill whole buffer"@)
}

/// The error of a file that ends too early.
pub fn eof() -> (error: StorageError)
    ensures
        error@ == eof_error(),
{
    StorageError::Io(
        IoError {
            kind: IoErrorKind::UnexpectedEof,
            message: String::from_str("failed to fill whole buffer"),
        },
    )
}

/// An input that the store does not take.
pub fn invalid_input(message: &str) -> (error: StorageError)
    ensures
        error@ == ErrorView::InvalidInput(message@),
{
    StorageError::InvalidInput(String::from_str(message))
}

/// A log that does not read.
pub fn corrupt_wal(message: &str) -> (error: StorageError)
    ensures
        error@ == ErrorView::CorruptWal(message@),
{
    StorageError::CorruptWal(String::from_str(message))
}

/// A table that does not read.
pub fn corrupt_sstable(message: &str) -> (error: StorageError)
    ensures
        error@ == ErrorView::CorruptSstable(message@),
{
    StorageError::CorruptSstable(String::from_str(message))
}

/// The text of an error is its message behind the words for its kind.
pub proof fn law_text_of_an_error(error: StorageError)
    ensures
        error matches StorageError::Io(inner) ==> error.text() == "I/O error: "@ + inner.message@,
        error matches StorageError::CorruptWal(message) ==> error.text() == "corrupt WAL: "@
            + message@,
        error matches StorageError::CorruptSstable(message) ==> error.text()
            == "corrupt SSTable: "@ + message@,
        error matches StorageError::InvalidInput(message) ==> error.text() == "invalid input: "@
            + message@,
{
}

/// Contracts speak of an error by its kind and its message, as they are.
pub proof fn law_view_of_an_error(error: StorageError)
    ensures
        error matches StorageError::Io(inner) ==> error@ == ErrorView::Io(
            inner.kind,
            inner.message@,
        ),
        error matches StorageError::CorruptWal(message) ==> error@ == ErrorView::CorruptWal(
            message@,
        ),
        error matches StorageError::CorruptSstable(message) ==> error@
            == ErrorView::CorruptSstable(message@),
        error matches StorageError::InvalidInput(message) ==> error@ == ErrorView::InvalidInput(
            message@,
        ),
{
}

/// Contracts speak of a result by the value or the error in it.
pub proof fn law_view_of_a_result<T: View>(result: Result<T, StorageError>)
    ensures
        result matches Ok(value) ==> outcome(result) == Ok::<T::V, ErrorView>(value@),
        result matches Err(error) ==> outcome(result) == Err::<T::V, ErrorView>(error@),
{
}

/// A file that ends too early is told as such.
pub proof fn law_end_of_file()
    ensures
        eof_error() == ErrorView::Io(
            IoErrorKind::UnexpectedEof,
            "failed to fill whole buffer"@,
        ),
{
}

} // verus!
