//! What can go wrong when a snapshot is taken.
use crate::path::{FilePath, WrittenPath};
use crate::text::{TextError, TextErrorView};
use vstd::prelude::*;
use vstd::string::StringExecFns;

verus! {

/// An error that a snapshot reports.
#[allow(inconsistent_fields)]
#[derive(Debug)]
pub enum SnapshotError {
    /// There is nothing at the path.
    DidNotExist(FilePath),
    /// The contents of a text file are no valid UTF-8; `inner` says where.
    Utf8Error { inner: TextError, path: FilePath },
    /// A model in XML form could not be decoded; `inner` says why.
    XmlModelDecodeError { inner: String, path: FilePath },
    /// A model in binary form could not be decoded; `inner` says why.
    BinaryModelDecodeError { inner: String, path: FilePath },
}

/// A state of affairs that a snapshot does not survive.
#[derive(Debug)]
pub enum SnapshotPanic {
    /// The path of a sync point gave an error.
    SyncPointError(SnapshotError),
    /// The path of a sync point gave no instance.
    SyncPointEmpty,
    /// An init script gave no instance.
    InitEmpty,
    /// A name that is needed is absent or no valid Unicode.
    UnreadableName,
    /// A localization table is malformed.
    MalformedTable,
    /// A model file has more than one root.
    MultipleRoots,
    /// Sync points are nested deeper than the stack allows.
    TooDeep,
}

/// Why there is no snapshot.
#[derive(Debug)]
pub enum SnapshotFailure {
    Error(SnapshotError),
    Panic(SnapshotPanic),
}

/// What a [`SnapshotError`] stands for.
#[allow(inconsistent_fields)]
pub enum ErrorView {
    DidNotExist(WrittenPath),
    Utf8Error { inner: TextErrorView, path: WrittenPath },
    XmlModelDecodeError { inner: Seq<char>, path: WrittenPath },
    BinaryModelDecodeError { inner: Seq<char>, path: WrittenPath },
}

/// What a [`SnapshotPanic`] stands for.
pub enum PanicView {
    SyncPointError(ErrorView),
    SyncPointEmpty,
    InitEmpty,
    UnreadableName,
    MalformedTable,
    MultipleRoots,
    TooDeep,
}

/// What a [`SnapshotFailure`] stands for.
pub enum FailureView {
    Error(ErrorView),
    Panic(PanicView),
}

impl View for SnapshotError {
    type V = ErrorView;

    open spec fn view(&self) -> ErrorView {
        match *self {
            SnapshotError::DidNotExist(path) => ErrorView::DidNotExist(path.written()),
            SnapshotError::Utf8Error { inner, path } => ErrorView::Utf8Error {
                inner: inner@,
                path: path.written(),
            },
            SnapshotError::XmlModelDecodeError { inner, path } => ErrorView::XmlModelDecodeError {
                inner: inner@,
                path: path.written(),
            },
            SnapshotError::BinaryModelDecodeError { inner, path } => ErrorView::BinaryModelDecodeError {
                inner: inner@,
                path: path.written(),
            },
        }
    }
}

impl View for SnapshotPanic {
    type V = PanicView;

    open spec fn view(&self) -> PanicView {
        match *self {
            SnapshotPanic::SyncPointError(error) => PanicView::SyncPointError(error@),
            SnapshotPanic::SyncPointEmpty => PanicView::SyncPointEmpty,
            SnapshotPanic::InitEmpty => PanicView::InitEmpty,
            SnapshotPanic::UnreadableName => PanicView::UnreadableName,
            SnapshotPanic::MalformedTable => PanicView::MalformedTable,
            SnapshotPanic::MultipleRoots => PanicView::MultipleRoots,
            SnapshotPanic::TooDeep => PanicView::TooDeep,
        }
    }
}

impl View for SnapshotFailure {
    type V = FailureView;

    open spec fn view(&self) -> FailureView {
        match *self {
            SnapshotFailure::Error(error) => FailureView::Error(error@),
            SnapshotFailure::Panic(panic) => FailureView::Panic(panic@),
        }
    }
}

/// The message for an error.
pub open spec fn error_text(error: ErrorView) -> Seq<char> {
    match error {
        ErrorView::DidNotExist(path) => "Path did not exist: "@ + path.text(),
        ErrorView::Utf8Error { inner, path } => "Invalid UTF-8: "@ + inner.message + " in path "@
            + path.text(),
        ErrorView::XmlModelDecodeError { inner, path } => "Malformed rbxmx model: "@ + inner
            + " in path "@ + path.text(),
        ErrorView::BinaryModelDecodeError { inner, path } => "Malformed rbxm model: "@ + inner
            + " in path "@ + path.text(),
    }
}

fn located(head: &str, inner: &String, path: &FilePath) -> (text: String)
    ensures
        text@ == head@ + inner@ + " in path "@ + path.written().text(),
{
    let mut text = head.to_owned();
    text.append(inner.as_str());
    text.append(" in path ");
    let place = path.display();
    text.append(place.as_str());
    text
}

impl SnapshotError {
    /// The message for the error.
    pub fn message(&self) -> (text: String)
        ensures
            text@ == error_text(self@),
    {
        match self {
            SnapshotError::DidNotExist(path) => {
                let mut text = "Path did not exist: ".to_owned();
                let place = path.display();
                text.append(place.as_str());
                text
            },
            SnapshotError::Utf8Error { inner, path } => located(
                "Invalid UTF-8: ",
                &inner.message,
                path,
            ),
            SnapshotError::XmlModelDecodeError { inner, path } => located(
                "Malformed rbxmx model: ",
                inner,
                path,
            ),
            SnapshotError::BinaryModelDecodeError { inner, path } => located(
                "Malformed rbxm model: ",
                inner,
                path,
            ),
        }
    }
}

} // verus!
