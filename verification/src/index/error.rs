//! What can go wrong with the index, and how it is told.

use crate::path::{lossy_utf8, FilePath};
use crate::text::{signed_decimal, signed_decimal_text};
use vstd::prelude::*;

verus! {

/// The kind of a failure of the file system.
#[derive(Debug, Clone, Copy, PartialEq, Eq, Structural)]
pub enum IoErrorKind {
    NotFound,
    PermissionDenied,
    AlreadyExists,
    InvalidInput,
    InvalidData,
    TimedOut,
    Interrupted,
    UnexpectedEof,
    OutOfMemory,
    /// Any kind that is not listed.
    Other,
}

/// A failure of the file system.
#[derive(Debug, PartialEq, Eq)]
pub struct IoError {
    pub kind: IoErrorKind,
    pub message: String,
}

/// What went wrong. The errors that ask for the file to be recreated, and those
/// that refuse it, are told apart from failures of the engine, of which the
/// message is kept, and of the file system, of which the kind is kept too.
#[derive(Debug, PartialEq, Eq)]
pub enum IndexError {
    Engine(String),
    Io(IoError),
    SchemaTooNew { found: i64, supported: i64 },
    RecreateRequired,
    RecreateFailed(Box<IndexError>),
    UnrecognizedDatabase { path: FilePath },
}

/// What an [`IndexError`] says.
pub enum ErrorView {
    Engine(Seq<char>),
    Io { kind: IoErrorKind, message: Seq<char> },
    SchemaTooNew { found: i64, supported: i64 },
    RecreateRequired,
    RecreateFailed(Box<ErrorView>),
    UnrecognizedDatabase { path: Seq<u8> },
}

impl View for IndexError {
    type V = ErrorView;

    open spec fn view(&self) -> ErrorView
        decreases self,
    {
        match self {
            IndexError::Engine(message) => ErrorView::Engine(message@),
            IndexError::Io(error) => ErrorView::Io { kind: error.kind, message: error.message@ },
            IndexError::SchemaTooNew { found, supported } => ErrorView::SchemaTooNew {
                found: *found,
                supported: *supported,
            },
            IndexError::RecreateRequired => ErrorView::RecreateRequired,
            IndexError::RecreateFailed(error) => ErrorView::RecreateFailed(Box::new((**error)@)),
            IndexError::UnrecognizedDatabase { path } => ErrorView::UnrecognizedDatabase {
                path: path@,
            },
        }
    }
}

// The parts of the messages.

pub const ENGINE_ERROR: &'static str = "index engine error: ";

pub const IO_ERROR: &'static str = "index io error: ";

pub const SCHEMA_ERROR: &'static str = "file-search index schema version ";

pub const NEWER_THAN: &'static str = " is newer than supported version ";

pub const RECREATE_AND_REBUILD: &'static str = "; recreate the index file and rebuild";

pub const MUST_BE_RECREATED: &'static str =
    "index database predates the turso engine and must be recreated";

pub const NOT_AN_INDEX: &'static str =
    " has user tables but is not a file-search index; move it aside or choose another --db, it was not modified";

pub const RECREATION_FAILED: &'static str = "index recreation after legacy detection failed: ";

/// How an error is told.
pub open spec fn error_message(error: ErrorView) -> Seq<char>
    decreases error,
{
    match error {
        ErrorView::Engine(message) => ENGINE_ERROR@ + message,
        ErrorView::Io { message, .. } => IO_ERROR@ + message,
        ErrorView::SchemaTooNew { found, supported } => SCHEMA_ERROR@ + signed_decimal(
            found as int,
        ) + NEWER_THAN@ + signed_decimal(supported as int) + RECREATE_AND_REBUILD@,
        ErrorView::RecreateRequired => MUST_BE_RECREATED@,
        ErrorView::RecreateFailed(cause) => RECREATION_FAILED@ + error_message(*cause),
        ErrorView::UnrecognizedDatabase { path } => lossy_utf8(path) + NOT_AN_INDEX@,
    }
}

impl IndexError {
    /// How the error is told.
    pub fn message(&self) -> (r: String)
        ensures
            r@ == error_message(self@),
        decreases self,
    {
        match self {
            IndexError::Engine(message) => {
                let mut out = ENGINE_ERROR.to_owned();
                out.append(message.as_str());
                out
            },
            IndexError::Io(error) => {
                let mut out = IO_ERROR.to_owned();
                out.append(error.message.as_str());
                out
            },
            IndexError::SchemaTooNew { found, supported } => {
                let mut out = SCHEMA_ERROR.to_owned();
                out.append(signed_decimal_text(*found).as_str());
                out.append(NEWER_THAN);
                out.append(signed_decimal_text(*supported).as_str());
                out.append(RECREATE_AND_REBUILD);
                out
            },
            IndexError::RecreateRequired => MUST_BE_RECREATED.to_owned(),
            IndexError::RecreateFailed(cause) => {
                let mut out = RECREATION_FAILED.to_owned();
                out.append(cause.message().as_str());
                out
            },
            IndexError::UnrecognizedDatabase { path } => {
                let mut out = path.to_lossy();
                out.append(NOT_AN_INDEX);
                out
            },
        }
    }
}

/// An error as a search backend reports it.
#[derive(Debug, Clone, PartialEq, Eq)]
pub struct BackendError {
    pub message: String,
}

impl BackendError {
    /// An error with this message.
    pub fn new(message: String) -> (r: Self)
        ensures
            r.message == message,
    {
        BackendError { message }
    }
}

/// An error of the index as a search backend reports it.
pub fn index_error_to_backend(error: IndexError) -> (r: BackendError)
    ensures
        r.message@ == error_message(error@),
{
    BackendError::new(error.message())
}

/// How each error is told.
pub proof fn errors_are_told_in_these_words(
    text: Seq<char>,
    kind: IoErrorKind,
    found: i64,
    supported: i64,
    cause: ErrorView,
    path: Seq<u8>,
)
    ensures
        error_message(ErrorView::Engine(text)) == "index engine error: "@ + text,
        error_message((ErrorView::Io { kind, message: text })) == "index io error: "@ + text,
        error_message((ErrorView::SchemaTooNew { found, supported }))
            == "file-search index schema version "@ + signed_decimal(found as int)
            + " is newer than supported version "@ + signed_decimal(supported as int)
            + "; recreate the index file and rebuild"@,
        error_message(ErrorView::RecreateRequired)
            == "index database predates the turso engine and must be recreated"@,
        error_message(ErrorView::RecreateFailed(Box::new(cause)))
            == "index recreation after legacy detection failed: "@ + error_message(cause),
        error_message((ErrorView::UnrecognizedDatabase { path })) == lossy_utf8(path)
            + " has user tables but is not a file-search index; move it aside or choose another --db, it was not modified"@,
{
}

} // verus!
