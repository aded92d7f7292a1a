//! Errors of the JSON reader.

use vstd::prelude::*;

use crate::position::{JsonReaderPosition, Place};

verus! {

/// Kind of a syntax error
#[derive(Debug, Clone, Copy, PartialEq, Eq, Structural)]
pub enum SyntaxErrorKind {
    /// A literal value is incomplete or invalid, for example `tru` instead of `true`
    InvalidLiteral,
    /// There is unexpected trailing data after a literal, for example `truey` instead of `true`
    TrailingDataAfterLiteral,
    /// A closing bracket (`]` or `}`) was encountered where it was not expected
    UnexpectedClosingBracket,
    /// A comma (`,`) was encountered where it was not expected
    UnexpectedComma,
    /// A comma (`,`) is missing between array elements or object members
    MissingComma,
    /// A trailing comma was used, but is not enabled in the
    /// [`ReaderSettings`](crate::settings::ReaderSettings)
    TrailingCommaNotEnabled,
    /// A colon (`:`) was encountered where it was not expected
    UnexpectedColon,
    /// A colon (`:`) is missing between member name and member value
    MissingColon,
    /// A JSON number is malformed, for example `01` (leading 0 is not allowed)
    MalformedNumber,
    /// There is unexpected trailing data after a number, for example `123a`
    TrailingDataAfterNumber,
    /// A member name or the end of an object (`}`) was expected but something else was encountered
    ExpectingMemberNameOrObjectEnd,
    /// The JSON data is malformed for a reason other than any of the other kinds
    MalformedJson,
    /// A control character was encountered in a member name or string value
    ///
    /// JSON requires that Unicode characters in the range from `0x00` to `0x1F` (inclusive) must
    /// be escaped when part of member name or string value.
    NotEscapedControlCharacter,
    /// An unknown escape sequence (`\...`) was encountered
    UnknownEscapeSequence,
    /// A malformed escape sequence was encountered, for example `\u00` instead of `\u0000`
    MalformedEscapeSequence,
    /// An unpaired surrogate pair escape sequence was encountered
    UnpairedSurrogatePairEscapeSequence,
    /// The JSON document is incomplete, for example a missing closing `]`
    IncompleteDocument,
    /// There is unexpected trailing data at the end of the document
    TrailingData,
    /// A comment was encountered, but comments are not enabled in the
    /// [`ReaderSettings`](crate::settings::ReaderSettings)
    CommentsNotEnabled,
    /// A comment is incomplete
    IncompleteComment,
    /// A block comment is missing the closing `*/`
    BlockCommentNotClosed,
}

/// JSON syntax error
#[derive(Debug, PartialEq, Eq)]
pub struct JsonSyntaxError {
    /// Kind of the error
    pub kind: SyntaxErrorKind,
    /// Location where the error occurred in the JSON document
    pub location: JsonReaderPosition,
}

/// Describes why the structure of the JSON document is considered invalid
#[derive(Debug, Clone, Copy, PartialEq, Eq, Structural)]
pub enum UnexpectedStructureKind {
    /// A JSON array or object, or the whole document, has fewer elements than expected
    FewerElementsThanExpected,
    /// A JSON array or object has more elements than expected
    MoreElementsThanExpected,
}

/// Type of a JSON value
#[derive(Debug, Clone, Copy, PartialEq, Eq, Structural)]
pub enum ValueType {
    Array,
    Object,
    String,
    Number,
    Boolean,
    Null,
}

/// Why reading data failed
#[derive(Debug, Clone, Copy, PartialEq, Eq, Structural)]
pub enum IoError {
    /// The data is not valid UTF-8
    InvalidUtf8,
    /// The source of the data reported an error
    Source,
}

impl IoError {
    /// The message of the error.
    pub open spec fn text(self) -> Seq<char> {
        match self {
            IoError::InvalidUtf8 => "invalid UTF-8 data"@,
            IoError::Source => "reading from the source failed"@,
        }
    }

    /// The message of the error.
    pub fn message(&self) -> (message: &'static str)
        ensures
            message@ == self.text(),
    {
        match self {
            IoError::InvalidUtf8 => "invalid UTF-8 data",
            IoError::Source => "reading from the source failed",
        }
    }
}

/// Error which occurred while reading from a JSON reader
#[derive(Debug, PartialEq, Eq)]
pub enum ReaderError {
    /// A syntax error was encountered
    SyntaxError(JsonSyntaxError),
    /// The next JSON value had an unexpected type
    UnexpectedValueType {
        /// The expected JSON value type
        expected: ValueType,
        /// The actual JSON value type
        actual: ValueType,
        /// Location where the error occurred in the JSON document
        location: JsonReaderPosition,
    },
    /// The JSON document had an unexpected structure
    UnexpectedStructure {
        /// Describes why the JSON document is considered to have an invalid structure
        kind: UnexpectedStructureKind,
        /// Location where the error occurred in the JSON document
        location: JsonReaderPosition,
    },
    /// The maximum nesting depth was exceeded while trying to start reading a JSON array or object
    MaxNestingDepthExceeded {
        /// The maximum nesting depth
        max_nesting_depth: u32,
        /// Location within the JSON document
        location: JsonReaderPosition,
    },
    /// An unsupported number value was encountered
    UnsupportedNumberValue {
        /// The unsupported number value
        number: String,
        /// Location within the JSON document
        location: JsonReaderPosition,
    },
    /// Reading the data failed
    IoError {
        /// Why reading the data failed
        error: IoError,
        /// Rough location where the error occurred within the JSON document
        location: JsonReaderPosition,
    },
}

/// What a [`ReaderError`] stands for.
pub enum Problem {
    Syntax(SyntaxErrorKind, Place),
    ValueType(ValueType, ValueType, Place),
    Structure(UnexpectedStructureKind, Place),
    Depth(u32, Place),
    Number(Seq<char>, Place),
    Io(IoError, Place),
}

impl View for ReaderError {
    type V = Problem;

    open spec fn view(&self) -> Problem {
        match self {
            ReaderError::SyntaxError(error) => Problem::Syntax(error.kind, error.location@),
            ReaderError::UnexpectedValueType { expected, actual, location } => Problem::ValueType(
                *expected,
                *actual,
                location@,
            ),
            ReaderError::UnexpectedStructure { kind, location } => Problem::Structure(
                *kind,
                location@,
            ),
            ReaderError::MaxNestingDepthExceeded { max_nesting_depth, location } => Problem::Depth(
                *max_nesting_depth,
                location@,
            ),
            ReaderError::UnsupportedNumberValue { number, location } => Problem::Number(
                number@,
                location@,
            ),
            ReaderError::IoError { error, location } => Problem::Io(*error, location@),
        }
    }
}

impl ReaderError {
    pub open spec fn location(self) -> JsonReaderPosition {
        match self {
            ReaderError::SyntaxError(error) => error.location,
            ReaderError::UnexpectedValueType { location, .. } => location,
            ReaderError::UnexpectedStructure { location, .. } => location,
            ReaderError::MaxNestingDepthExceeded { location, .. } => location,
            ReaderError::UnsupportedNumberValue { location, .. } => location,
            ReaderError::IoError { location, .. } => location,
        }
    }

    /// Whether this error stands for the problem, with a location that is completely known.
    pub open spec fn reports(self, problem: Problem) -> bool {
        &&& self@ == problem
        &&& self.location().line_pos is Some
        &&& self.location().data_pos is Some
    }
}

/// Why the bytes of a token or comment are rejected.
#[derive(Debug, Clone, Copy, PartialEq, Eq, Structural)]
pub enum Rejection {
    Syntax(SyntaxErrorKind),
    InvalidUtf8,
}

impl Rejection {
    /// The problem to report for the rejection at a place.
    pub open spec fn at(self, place: Place) -> Problem {
        match self {
            Rejection::Syntax(kind) => Problem::Syntax(kind, place),
            Rejection::InvalidUtf8 => Problem::Io(IoError::InvalidUtf8, place),
        }
    }
}

/// Why an operation of the reader did not complete
#[derive(Debug, PartialEq, Eq)]
pub enum Stop {
    /// The buffered data does not suffice; more data has to be provided before the operation can
    /// be continued by calling it again
    NeedsInput,
    /// The operation failed
    Error(ReaderError),
}

/// How an operation ended.
pub enum Outcome<T> {
    Ready(T),
    NeedsInput,
    Failed(Problem),
}

impl Stop {
    /// Whether an operation which stopped this way had the outcome.
    pub open spec fn tells<T>(self, outcome: Outcome<T>) -> bool {
        match self {
            Stop::NeedsInput => outcome is NeedsInput,
            Stop::Error(error) => outcome matches Outcome::Failed(problem) && error.reports(problem),
        }
    }
}

impl Outcome<Seq<char>> {
    /// Whether an operation with this outcome returned the text.
    pub open spec fn is_string(self, result: Result<String, Stop>) -> bool {
        match result {
            Ok(text) => self == Outcome::Ready(text@),
            Err(stop) => stop.tells(self),
        }
    }

    /// Whether an operation with this outcome returned the text.
    pub open spec fn is_str(self, result: Result<&str, Stop>) -> bool {
        match result {
            Ok(text) => self == Outcome::Ready(text@),
            Err(stop) => stop.tells(self),
        }
    }
}

impl<T> Outcome<T> {
    /// Whether an operation with this outcome returned the result.
    pub open spec fn is_result(self, result: Result<T, Stop>) -> bool {
        match result {
            Ok(value) => self == Outcome::Ready(value),
            Err(stop) => stop.tells(self),
        }
    }

    /// The same outcome for an operation with another result; to be used for an operation which
    /// did not complete.
    pub open spec fn stopped<U>(self) -> Outcome<U> {
        match self {
            Outcome::Failed(problem) => Outcome::Failed(problem),
            _ => Outcome::NeedsInput,
        }
    }
}

} // verus!
