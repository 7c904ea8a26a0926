//! The error of the readers.

use vstd::prelude::*;

verus! {

/// What went wrong.
#[derive(Debug, Clone, Copy, PartialEq, Eq, Structural)]
pub enum ErrorKind {
    /// The XML of a part is malformed.
    Xml,
    /// An attribute of a tag is malformed.
    Attribute,
    /// A part ends where more was due.
    UnexpectedEof,
    /// The used range of a sheet is malformed.
    Dimension,
    /// The number of a row is malformed.
    RowNumber,
    /// A sheet's name is not UTF-8.
    SheetName,
    /// The workbook has no such sheet.
    SheetNotFound,
    /// The file is no archive.
    Archive,
    /// The archive lacks a part.
    MissingPart,
    /// A part of the archive cannot be read to its end.
    UnreadablePart,
    /// The shared strings are of a form that the byte scanner leaves to the
    /// XML parser.
    NotSimple,
    /// A text, or all shared strings together, exceed what 32-bit offsets reach.
    TooLong,
    /// A cell's position is missing.
    MissingPosition,
    /// A cell is not of the column it was offered to.
    WrongColumn,
}

/// An error with its message.
#[derive(Debug)]
pub struct XlsxError {
    pub kind: ErrorKind,
    pub message: String,
}

/// An error as contracts speak of it.
pub struct Failure {
    pub kind: ErrorKind,
    pub message: Seq<char>,
}

impl View for XlsxError {
    type V = Failure;

    open spec fn view(&self) -> Failure {
        Failure { kind: self.kind, message: self.message@ }
    }
}

/// The failure of a kind with a fixed message.
pub open spec fn failure(kind: ErrorKind, message: Seq<char>) -> Failure {
    Failure { kind, message }
}

/// An error with a fixed message.
pub fn error(kind: ErrorKind, message: &str) -> (e: XlsxError)
    ensures
        e@ == failure(kind, message@),
{
    XlsxError { kind, message: message.to_owned() }
}

/// An error whose message is a fixed text and a detail.
pub fn error_with(kind: ErrorKind, message: &str, detail: &str) -> (e: XlsxError)
    ensures
        e@ == failure(kind, message@ + detail@),
{
    let mut text = message.to_owned();
    text.append(detail);
    XlsxError { kind, message: text }
}

} // verus!
