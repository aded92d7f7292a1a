//! The JSON reader.

use vstd::prelude::*;

use crate::error::{
    IoError, JsonSyntaxError, ReaderError, Rejection, Stop, SyntaxErrorKind, UnexpectedStructureKind,
};
use crate::model::{Activity, Operation, ReaderModel, Transfer, TransferProgress};
use crate::position::{
    JsonPathPiece, JsonReaderPosition, LinePosition, Location, PathPiece, Place, Spot,
};
use crate::scanner::Scanner;
use crate::settings::ReaderSettings;
use crate::token::{Context, PeekedValue, StackValue};

mod api;
pub mod debug;
pub mod input;
mod peeking;
mod skipping;
pub mod string_value;
pub mod transferring;
mod values;

verus! {

/// A JSON reader implementation which consumes data from a source
///
/// The reader itself performs no input: it processes data which was handed to it. An operation for
/// which that data does not suffice stops with [`Stop::NeedsInput`]; it is continued by calling it
/// again once more data was handed to the reader.
///
/// The data provided by the source is expected to be valid UTF-8 data. The JSON reader methods
/// will return a [`ReaderError::IoError`] if invalid UTF-8 data is detected. A leading byte order
/// mark (BOM) is not allowed.
///
/// Besides UTF-8 validation this JSON reader only implements the following basic security
/// features:
/// - restriction on JSON numbers, see [`ReaderSettings::restrict_number_values`]
/// - nesting depth limit, see [`ReaderSettings::max_nesting_depth`]
///
/// In particular it does not impose a limit on the length of the document, of member names,
/// string values, arrays or objects, and it does not detect duplicate member names.
#[derive(Debug)]
pub struct JsonStreamReader<R> {
    reader: R,
    scanner: Scanner,
    peeked: Option<PeekedValue>,
    /// Whether the current array or object is empty, or at top-level whether
    /// no value has been consumed yet
    is_empty: bool,
    expects_member_name: bool,
    stack: Vec<StackValue>,
    is_string_value_reader_active: bool,
    json_path: Option<Vec<JsonPathPiece>>,
    reader_settings: ReaderSettings,
    /// Whether the colon behind the last member name was consumed
    colon_read: bool,
    /// Location of the comma in front of the next token, if it was consumed
    comma: Option<Location>,
    activity: Activity,
    /// Nesting depth of the value which is being skipped, if any
    skip_base: Option<usize>,
    transfer: Option<Transfer>,
    /// The operation which was called and has not completed yet, if any
    ongoing: Option<Operation>,
}

pub open spec fn optional_spot(location: Option<Location>) -> Option<Spot> {
    match location {
        Some(location) => Some(location@),
        None => None,
    }
}

pub open spec fn optional_depth(depth: Option<usize>) -> Option<nat> {
    match depth {
        Some(depth) => Some(depth as nat),
        None => None,
    }
}

pub open spec fn optional_transfer(transfer: Option<Transfer>) -> Option<TransferProgress> {
    match transfer {
        Some(transfer) => Some(transfer@),
        None => None,
    }
}

impl<R> View for JsonStreamReader<R> {
    type V = ReaderModel;

    closed spec fn view(&self) -> ReaderModel {
        ReaderModel {
            scan: self.scanner@,
            peeked: self.peeked,
            is_empty: self.is_empty,
            expects_member_name: self.expects_member_name,
            stack: self.stack@,
            string_reader_active: self.is_string_value_reader_active,
            path: PathPiece::optional(self.json_path),
            settings: self.reader_settings,
            colon_read: self.colon_read,
            comma: optional_spot(self.comma),
            doing: self.activity@,
            skip_base: optional_depth(self.skip_base),
            transfer: optional_transfer(self.transfer),
            ongoing: self.ongoing,
        }
    }
}

impl<R> JsonStreamReader<R> {
    /// What holds of the reader whenever no operation is being executed.
    pub closed spec fn wf(self) -> bool {
        &&& self.scanner.wf()
        &&& self@.valid()
    }

    /// The source of the data.
    pub closed spec fn source(self) -> R {
        self.reader
    }

    pub proof fn lemma_wf(self)
        requires
            self.wf(),
        ensures
            self@.valid(),
            self@.scan.pending.bytes.len() <= crate::buffer::READER_BUF_SIZE,
    {
        self.scanner.lemma_wf();
    }

    /// Whether an operation was executed which leads to the state and has not touched the source.
    spec fn moved_to(self, next: Self, state: ReaderModel) -> bool {
        &&& next.scanner.wf()
        &&& next.reader == self.reader
        &&& next@ == state
    }

    /// Creates a JSON reader with [default settings](ReaderSettings::default)
    pub fn new(reader: R) -> (result: Self)
        ensures
            result.wf(),
            result.source() == reader,
            result@ == ReaderModel::start(ReaderSettings::standard()),
    {
        JsonStreamReader::new_custom(reader, ReaderSettings::default())
    }

    /// Creates a JSON reader with custom settings
    ///
    /// The settings can be used to customize which JSON data the reader accepts and to allow
    /// JSON data which is otherwise considered invalid.
    pub fn new_custom(reader: R, reader_settings: ReaderSettings) -> (result: Self)
        ensures
            result.wf(),
            result.source() == reader,
            result@ == ReaderModel::start(reader_settings),
    {
        let initial_nesting_capacity: usize = 16;
        let json_path: Option<Vec<JsonPathPiece>> = if reader_settings.track_path {
            Some(Vec::with_capacity(initial_nesting_capacity))
        } else {
            None
        };
        let result = JsonStreamReader {
            reader,
            scanner: Scanner::new(),
            peeked: None,
            is_empty: true,
            expects_member_name: false,
            stack: Vec::with_capacity(initial_nesting_capacity),
            is_string_value_reader_active: false,
            json_path,
            reader_settings,
            colon_read: false,
            comma: None,
            activity: Activity::Idle,
            skip_base: None,
            transfer: None,
            ongoing: None,
        };
        proof {
            if result.json_path is Some {
                assert(PathPiece::all(result.json_path->0@) =~= Seq::empty());
            }
            assert(result@ =~= ReaderModel::start(reader_settings));
            ReaderModel::lemma_start(reader_settings);
        }
        result
    }

    /// Gets a mutable reference to the source of the data
    ///
    /// This should only be needed rarely, for advanced use cases only. The source should not
    /// be used for determining the byte position of the JSON reader, since it might buffer
    /// not yet processed data internally. Instead the [`JsonReaderPosition::data_pos`] of the
    /// [`current_position`](Self::current_position) should be used for that.
    pub fn reader_mut(&mut self) -> (reader: &mut R)
        requires
            old(self).wf(),
        ensures
            *reader == old(self).source(),
            final(self).source() == *final(reader),
            final(self)@ == old(self)@,
            final(self).wf(),
    {
        &mut self.reader
    }

    /// Gets the current position of the reader
    ///
    /// `include_path` tells whether the JSON path should be determined as well.
    pub fn current_position(&self, include_path: bool) -> (position: JsonReaderPosition)
        ensures
            position.denotes(
                Place {
                    path: if include_path {
                        self@.path
                    } else {
                        None
                    },
                    spot: self@.scan.spot,
                },
            ),
    {
        let location = self.scanner.location();
        let path: Option<Vec<JsonPathPiece>> = if include_path {
            match &self.json_path {
                Some(path) => Some(crate::position::clone_path(path)),
                None => None,
            }
        } else {
            None
        };
        JsonReaderPosition {
            path,
            line_pos: Some(LinePosition { line: location.line, column: location.column }),
            data_pos: Some(location.byte_pos),
        }
    }

    fn create_error_location(&self) -> (position: JsonReaderPosition)
        ensures
            position@ == self@.place(),
            position.line_pos is Some,
            position.data_pos is Some,
    {
        self.current_position(true)
    }

    /// Gives up the operation in progress, if any.
    fn settle(&mut self)
        requires
            old(self).scanner.wf(),
        ensures
            old(self).moved_to(*final(self), old(self)@.settled()),
    {
        self.scanner.settle();
        self.colon_read = false;
        self.comma = None;
        self.activity = Activity::Idle;
        self.skip_base = None;
        self.transfer = None;
        self.ongoing = None;
    }

    /// Gives up the operation in progress, if any.
    ///
    /// This is intended for the case that the operation is not going to be continued. What that
    /// operation consumed so far stays consumed.
    pub fn abandon(&mut self)
        requires
            old(self).wf(),
        ensures
            final(self).wf(),
            final(self).source() == old(self).source(),
            final(self)@ == old(self)@.settled(),
    {
        proof {
            self@.lemma_settled();
        }
        self.settle();
    }

    /// Lets the operation fail.
    fn fail<T>(&mut self, error: ReaderError) -> (result: Result<T, Stop>)
        requires
            old(self).scanner.wf(),
            error.reports(error@),
        ensures
            old(self).moved_to(*final(self), old(self)@.failed::<T>(error@).0),
            old(self)@.failed::<T>(error@).1.is_result(result),
    {
        self.settle();
        Err(Stop::Error(error))
    }

    /// Lets the operation fail because the data at the current location is rejected.
    fn reject<T>(&mut self, rejection: Rejection) -> (result: Result<T, Stop>)
        requires
            old(self).scanner.wf(),
        ensures
            old(self).moved_to(*final(self), old(self)@.rejected::<T>(rejection).0),
            old(self)@.rejected::<T>(rejection).1.is_result(result),
    {
        let location = self.create_error_location();
        match rejection {
            Rejection::Syntax(kind) => self.fail(
                ReaderError::SyntaxError(JsonSyntaxError { kind, location }),
            ),
            Rejection::InvalidUtf8 => self.fail(
                ReaderError::IoError { error: IoError::InvalidUtf8, location },
            ),
        }
    }

    /// Lets the operation fail with a syntax error at the current location.
    fn create_syntax_value_error<T>(&mut self, kind: SyntaxErrorKind) -> (result: Result<T, Stop>)
        requires
            old(self).scanner.wf(),
        ensures
            old(self).moved_to(*final(self), old(self)@.malformed::<T>(kind).0),
            old(self)@.malformed::<T>(kind).1.is_result(result),
    {
        self.reject(Rejection::Syntax(kind))
    }

    /// Lets the operation fail because of the structure of the document.
    fn create_structure_error<T>(&mut self, kind: UnexpectedStructureKind) -> (result: Result<
        T,
        Stop,
    >)
        requires
            old(self).scanner.wf(),
        ensures
            old(self).moved_to(*final(self), old(self)@.misfit::<T>(kind).0),
            old(self)@.misfit::<T>(kind).1.is_result(result),
    {
        let location = self.create_error_location();
        self.fail(ReaderError::UnexpectedStructure { kind, location })
    }

    fn is_behind_top_level(&self) -> (result: bool)
        ensures
            result == self@.is_behind_top_level(),
    {
        !self.is_empty && self.stack.len() == 0
    }

    fn is_in_array(&self) -> (result: bool)
        ensures
            result == self@.is_in_array(),
    {
        self.stack.len() > 0 && self.stack[self.stack.len() - 1] == StackValue::Array
    }

    fn is_in_object(&self) -> (result: bool)
        ensures
            result == self@.is_in_object(),
    {
        self.stack.len() > 0 && self.stack[self.stack.len() - 1] == StackValue::Object
    }

    fn expects_member_value(&self) -> (result: bool)
        ensures
            result == self@.expects_member_value(),
    {
        self.is_in_object() && !self.expects_member_name
    }

    fn can_have_comma(&self) -> (result: bool)
        ensures
            result == self@.can_have_comma(),
    {
        !self.is_empty && (self.is_in_array() || self.expects_member_name)
    }

    fn context(&self) -> (result: Context)
        ensures
            result == self@.context(),
    {
        if self.expects_member_name {
            Context::Name
        } else if self.is_in_array() {
            Context::Item
        } else {
            Context::Value
        }
    }
}

} // verus!
