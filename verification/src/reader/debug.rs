//! Insight into the state of the JSON reader.

use vstd::prelude::*;

use super::JsonStreamReader;
use crate::model::ReaderModel;
use crate::position::{JsonPathPiece, LinePosition, PathPiece};
use crate::settings::ReaderSettings;
use crate::snapshot::{describe_buffer, BufferDescription};
use crate::token::{PeekedValue, StackValue};

verus! {

/// The state of a JSON reader
#[derive(Debug)]
pub struct ReaderSnapshot<'a> {
    /// Description of the buffered data; `None` if the end of the data has been reached
    pub buffer: Option<BufferDescription>,
    /// The token which was peeked at
    pub peeked: Option<PeekedValue>,
    /// Whether no element of the current array or object, or no top-level value, has been
    /// consumed yet
    pub is_empty: bool,
    pub expects_member_name: bool,
    /// The arrays and objects which were started and not ended yet, outermost first
    pub stack: &'a Vec<StackValue>,
    pub is_string_value_reader_active: bool,
    pub line_pos: LinePosition,
    pub byte_pos: u64,
    pub json_path: &'a Option<Vec<JsonPathPiece>>,
    pub reader_settings: &'a ReaderSettings,
}

impl<'a> ReaderSnapshot<'a> {
    /// Whether this shows the state.
    pub open spec fn shows(self, state: ReaderModel) -> bool {
        &&& match self.buffer {
            Some(buffer) => !state.scan.pending.eof && buffer.describes(state.scan.pending.bytes),
            None => state.scan.pending.eof,
        }
        &&& self.peeked == state.peeked
        &&& self.is_empty == state.is_empty
        &&& self.expects_member_name == state.expects_member_name
        &&& self.stack@ == state.stack
        &&& self.is_string_value_reader_active == state.string_reader_active
        &&& self.line_pos.line == state.scan.spot.line
        &&& self.line_pos.column == state.scan.spot.column
        &&& self.byte_pos == state.scan.spot.byte_pos
        &&& PathPiece::optional(*self.json_path) == state.path
        &&& *self.reader_settings == state.settings
    }
}

impl<R> JsonStreamReader<R> {
    /// Gets the source of the data
    pub fn reader(&self) -> (reader: &R)
        ensures
            *reader == self.source(),
    {
        &self.reader
    }

    /// Gets the state of the reader, for debugging
    pub fn snapshot(&self) -> (snapshot: ReaderSnapshot<'_>)
        requires
            self.wf(),
        ensures
            snapshot.shows(self@),
    {
        let buffer = if self.scanner.has_reached_eof() {
            None
        } else {
            Some(describe_buffer(self.scanner.content()))
        };
        let location = self.scanner.location();
        ReaderSnapshot {
            buffer,
            peeked: self.peeked,
            is_empty: self.is_empty,
            expects_member_name: self.expects_member_name,
            stack: &self.stack,
            is_string_value_reader_active: self.is_string_value_reader_active,
            line_pos: LinePosition { line: location.line, column: location.column },
            byte_pos: location.byte_pos,
            json_path: &self.json_path,
            reader_settings: &self.reader_settings,
        }
    }
}

} // verus!
