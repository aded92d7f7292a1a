//! The operations of the JSON reader.

use vstd::prelude::*;

use super::transferring::TransferAction;
use super::JsonStreamReader;
use crate::error::{Stop, ValueType};
use crate::model::{Operation, ReaderModel};
use crate::token::StackValue;
use crate::usage::Misuse;

verus! {

impl<R> JsonStreamReader<R> {
    /// Checks whether an operation may be called in the current state of the reader
    ///
    /// Returns why it must not be called, if so.
    pub fn check_usage(&self, operation: Operation) -> (result: Option<Misuse>)
        ensures
            result == self@.misuse(operation),
    {
        if let Some(ongoing) = self.ongoing {
            return if ongoing == operation {
                None
            } else {
                Some(Misuse::OperationInProgress)
            };
        }
        match operation {
            Operation::Peek => self.check_value_usage(Misuse::PeekExpectingName),
            Operation::BeginArray
            | Operation::BeginObject
            | Operation::NextString
            | Operation::NextStringReader
            | Operation::NextNumber
            | Operation::NextBool
            | Operation::NextNull => self.check_value_usage(Misuse::ReadValueExpectingName),
            Operation::EndArray => if !self.is_in_array() {
                Some(Misuse::EndArrayOutsideArray)
            } else {
                self.check_peek_usage()
            },
            Operation::EndObject => if !self.is_in_object() {
                Some(Misuse::EndObjectOutsideObject)
            } else if self.expects_member_value() {
                Some(Misuse::EndObjectExpectingValue)
            } else {
                self.check_peek_usage()
            },
            Operation::HasNext => if self.expects_member_value() {
                Some(Misuse::HasNextExpectingValue)
            } else if self.stack.len() == 0 && self.is_empty {
                Some(Misuse::HasNextBeforeTopLevel)
            } else if self.stack.len() == 0 && !self.reader_settings.allow_multiple_top_level {
                Some(Misuse::HasNextMultipleTopLevelDisabled)
            } else {
                self.check_peek_usage()
            },
            Operation::NextName | Operation::SkipName => if !self.expects_member_name {
                Some(Misuse::NameNotExpected)
            } else if self.is_string_value_reader_active {
                Some(Misuse::NameWithStringReader)
            } else {
                None
            },
            Operation::SkipValue => self.check_value_usage(Misuse::SkipValueExpectingName),
            Operation::SkipToTopLevel => if self.is_string_value_reader_active {
                Some(Misuse::SkipToTopLevelWithStringReader)
            } else {
                None
            },
            Operation::TransferTo => self.check_value_usage(Misuse::TransferExpectingName),
            Operation::ConsumeTrailingWhitespace => if self.is_string_value_reader_active {
                Some(Misuse::TrailingWhitespaceWithStringReader)
            } else if self.stack.len() > 0 {
                Some(Misuse::TrailingWhitespaceInsideTopLevel)
            } else if self.is_empty {
                Some(Misuse::TrailingWhitespaceBeforeTopLevel)
            } else {
                None
            },
        }
    }

    fn check_peek_usage(&self) -> (result: Option<Misuse>)
        ensures
            result == self@.peek_misuse(),
    {
        if self.is_string_value_reader_active {
            Some(Misuse::PeekWithStringReader)
        } else if self.peeked.is_none() && self.is_behind_top_level()
            && !self.reader_settings.allow_multiple_top_level {
            Some(Misuse::PeekBehindTopLevel)
        } else {
            None
        }
    }

    fn check_value_usage(&self, expecting_name: Misuse) -> (result: Option<Misuse>)
        ensures
            result == self@.value_misuse(expecting_name),
    {
        if self.expects_member_name {
            Some(expecting_name)
        } else {
            self.check_peek_usage()
        }
    }

    /// Records whether an operation which stopped has to be continued.
    pub(super) fn conclude<T>(&mut self, operation: Operation, result: Result<T, Stop>) -> (same: Result<
        T,
        Stop,
    >)
        requires
            old(self).scanner.wf(),
        ensures
            same == result,
            ({
                let ongoing = if result matches Err(Stop::NeedsInput) {
                    Some(operation)
                } else {
                    None
                };
                old(self).moved_to(*final(self), ReaderModel { ongoing, ..old(self)@ })
            }),
            final(self).scanner == old(self).scanner,
    {
        self.ongoing = match &result {
            Err(Stop::NeedsInput) => Some(operation),
            _ => None,
        };
        result
    }

    /// Peeks at the type of the next JSON value, without consuming it
    ///
    /// Fails if there is no next value; in an array this is the case when its end has been
    /// reached.
    pub fn peek(&mut self) -> (result: Result<ValueType, Stop>)
        requires
            old(self).wf(),
            old(self)@.misuse(Operation::Peek) is None,
        ensures
            final(self).wf(),
            final(self).source() == old(self).source(),
            final(self)@ == old(self)@.peek().0,
            old(self)@.peek().1.is_result(result),
    {
        proof {
            self@.lemma_ready(Operation::Peek);
            self@.lemma_peek();
        }
        self.ongoing = None;
        let result = self.peek_value();
        self.conclude(Operation::Peek, result)
    }

    /// Begins consuming a JSON array
    pub fn begin_array(&mut self) -> (result: Result<(), Stop>)
        requires
            old(self).wf(),
            old(self)@.misuse(Operation::BeginArray) is None,
        ensures
            final(self).wf(),
            final(self).source() == old(self).source(),
            final(self)@ == old(self)@.begin_array().0,
            old(self)@.begin_array().1.is_result(result),
    {
        proof {
            self@.lemma_ready(Operation::BeginArray);
            self@.lemma_begin_array();
        }
        self.ongoing = None;
        let result = self.on_container_start(StackValue::Array);
        self.conclude(Operation::BeginArray, result)
    }

    /// Consumes the closing bracket `]` of the current JSON array
    ///
    /// Fails if there are remaining elements in the array.
    pub fn end_array(&mut self) -> (result: Result<(), Stop>)
        requires
            old(self).wf(),
            old(self)@.misuse(Operation::EndArray) is None,
        ensures
            final(self).wf(),
            final(self).source() == old(self).source(),
            final(self)@ == old(self)@.end_array().0,
            old(self)@.end_array().1.is_result(result),
    {
        proof {
            self@.lemma_ready(Operation::EndArray);
            self@.lemma_end_array();
        }
        self.ongoing = None;
        let result = self.end_container(StackValue::Array);
        self.conclude(Operation::EndArray, result)
    }

    /// Begins consuming a JSON object
    pub fn begin_object(&mut self) -> (result: Result<(), Stop>)
        requires
            old(self).wf(),
            old(self)@.misuse(Operation::BeginObject) is None,
        ensures
            final(self).wf(),
            final(self).source() == old(self).source(),
            final(self)@ == old(self)@.begin_object().0,
            old(self)@.begin_object().1.is_result(result),
    {
        proof {
            self@.lemma_ready(Operation::BeginObject);
            self@.lemma_begin_object();
        }
        self.ongoing = None;
        let result = self.on_container_start(StackValue::Object);
        self.conclude(Operation::BeginObject, result)
    }

    /// Consumes the closing bracket `}` of the current JSON object
    ///
    /// Fails if there are remaining members in the object.
    pub fn end_object(&mut self) -> (result: Result<(), Stop>)
        requires
            old(self).wf(),
            old(self)@.misuse(Operation::EndObject) is None,
        ensures
            final(self).wf(),
            final(self).source() == old(self).source(),
            final(self)@ == old(self)@.end_object().0,
            old(self)@.end_object().1.is_result(result),
    {
        proof {
            self@.lemma_ready(Operation::EndObject);
            self@.lemma_end_object();
        }
        self.ongoing = None;
        let result = self.end_container(StackValue::Object);
        self.conclude(Operation::EndObject, result)
    }

    /// Checks if there is a next element in the current JSON array or object, or a next
    /// top-level value, without consuming it
    pub fn has_next(&mut self) -> (result: Result<bool, Stop>)
        requires
            old(self).wf(),
            old(self)@.misuse(Operation::HasNext) is None,
        ensures
            final(self).wf(),
            final(self).source() == old(self).source(),
            final(self)@ == old(self)@.has_next().0,
            old(self)@.has_next().1.is_result(result),
    {
        proof {
            self@.lemma_ready(Operation::HasNext);
            self@.lemma_has_next();
            reveal(ReaderModel::has_next);
        }
        self.ongoing = None;
        let result = self.check_next();
        self.conclude(Operation::HasNext, result)
    }

    /// Consumes and returns a JSON boolean value
    pub fn next_bool(&mut self) -> (result: Result<bool, Stop>)
        requires
            old(self).wf(),
            old(self)@.misuse(Operation::NextBool) is None,
        ensures
            final(self).wf(),
            final(self).source() == old(self).source(),
            final(self)@ == old(self)@.next_bool().0,
            old(self)@.next_bool().1.is_result(result),
    {
        proof {
            self@.lemma_ready(Operation::NextBool);
            self@.lemma_next_bool();
        }
        self.ongoing = None;
        let result = self.read_bool();
        self.conclude(Operation::NextBool, result)
    }

    /// Consumes a JSON null value
    pub fn next_null(&mut self) -> (result: Result<(), Stop>)
        requires
            old(self).wf(),
            old(self)@.misuse(Operation::NextNull) is None,
        ensures
            final(self).wf(),
            final(self).source() == old(self).source(),
            final(self)@ == old(self)@.next_null().0,
            old(self)@.next_null().1.is_result(result),
    {
        proof {
            self@.lemma_ready(Operation::NextNull);
            self@.lemma_next_null();
        }
        self.ongoing = None;
        let result = self.read_null();
        self.conclude(Operation::NextNull, result)
    }

    /// Skips the name of the next JSON object member
    pub fn skip_name(&mut self) -> (result: Result<(), Stop>)
        requires
            old(self).wf(),
            old(self)@.misuse(Operation::SkipName) is None,
        ensures
            final(self).wf(),
            final(self).source() == old(self).source(),
            final(self)@ == old(self)@.skip_name().0,
            old(self)@.skip_name().1.is_result(result),
    {
        proof {
            self@.lemma_ready(Operation::SkipName);
            self@.lemma_skip_name();
        }
        self.ongoing = None;
        let result = self.pass_name();
        self.conclude(Operation::SkipName, result)
    }

    /// Skips the next value
    ///
    /// If the value is a JSON array or object, all its elements are skipped as well. Numbers
    /// are not restricted while skipping.
    pub fn skip_value(&mut self) -> (result: Result<(), Stop>)
        requires
            old(self).wf(),
            old(self)@.misuse(Operation::SkipValue) is None,
        ensures
            final(self).wf(),
            final(self).source() == old(self).source(),
            final(self)@ == old(self)@.skip_value().0,
            old(self)@.skip_value().1.is_result(result),
    {
        proof {
            self@.lemma_ready(Operation::SkipValue);
            self@.lemma_skip_value();
        }
        self.ongoing = None;
        let result = self.pass_value();
        self.conclude(Operation::SkipValue, result)
    }

    /// Skips the remaining elements of all currently enclosing JSON arrays and objects
    ///
    /// Does nothing if the reader is already at top-level.
    pub fn skip_to_top_level(&mut self) -> (result: Result<(), Stop>)
        requires
            old(self).wf(),
            old(self)@.misuse(Operation::SkipToTopLevel) is None,
        ensures
            final(self).wf(),
            final(self).source() == old(self).source(),
            final(self)@ == old(self)@.skip_to_top_level().0,
            old(self)@.skip_to_top_level().1.is_result(result),
    {
        proof {
            self@.lemma_ready(Operation::SkipToTopLevel);
            self@.lemma_skip_to_top_level();
        }
        self.ongoing = None;
        let result = self.pass_to_top_level();
        self.conclude(Operation::SkipToTopLevel, result)
    }

    /// Consumes trailing whitespace at the end of the document, and verifies that there is no
    /// additional data
    pub fn consume_trailing_whitespace(&mut self) -> (result: Result<(), Stop>)
        requires
            old(self).wf(),
            old(self)@.misuse(Operation::ConsumeTrailingWhitespace) is None,
        ensures
            final(self).wf(),
            final(self).source() == old(self).source(),
            final(self)@ == old(self)@.consume_trailing_whitespace().0,
            old(self)@.consume_trailing_whitespace().1.is_result(result),
    {
        proof {
            self@.lemma_ready(Operation::ConsumeTrailingWhitespace);
            self@.lemma_consume_trailing_whitespace();
        }
        self.ongoing = None;
        let result = self.pass_trailing_whitespace();
        self.conclude(Operation::ConsumeTrailingWhitespace, result)
    }

    /// Consumes and returns the name of the next JSON object member as `str`
    ///
    /// To avoid borrowing from the reader use [`next_name_owned`](Self::next_name_owned).
    pub fn next_name(&mut self) -> (result: Result<&str, Stop>)
        requires
            old(self).wf(),
            old(self)@.misuse(Operation::NextName) is None,
        ensures
            final(self).wf(),
            final(self).source() == old(self).source(),
            final(self)@ == old(self)@.next_name().0,
            old(self)@.next_name().1.is_str(result),
    {
        proof {
            self@.lemma_ready(Operation::NextName);
            self@.lemma_next_name();
            reveal(ReaderModel::next_name);
        }
        self.ongoing = None;
        let result = self.read_name(true, true);
        let name_bytes = match self.conclude(Operation::NextName, result) {
            Ok(name_bytes) => name_bytes,
            Err(stop) => return Err(stop),
        };
        if self.json_path.is_some() {
            let name = self.get_str(&name_bytes).to_owned();
            self.set_member_name(name);
        }
        Ok(self.get_str(&name_bytes))
    }

    /// Consumes and returns the name of the next JSON object member as `String`
    pub fn next_name_owned(&mut self) -> (result: Result<String, Stop>)
        requires
            old(self).wf(),
            old(self)@.misuse(Operation::NextName) is None,
        ensures
            final(self).wf(),
            final(self).source() == old(self).source(),
            final(self)@ == old(self)@.next_name().0,
            old(self)@.next_name().1.is_string(result),
    {
        proof {
            self@.lemma_ready(Operation::NextName);
            self@.lemma_next_name();
            reveal(ReaderModel::next_name);
        }
        self.ongoing = None;
        let result = self.read_name(true, false);
        let name_bytes = match self.conclude(Operation::NextName, result) {
            Ok(name_bytes) => name_bytes,
            Err(stop) => return Err(stop),
        };
        let name = self.get_string(name_bytes);
        self.set_member_name(name.clone());
        Ok(name)
    }

    /// Consumes and returns a JSON string value as `String`
    pub fn next_string(&mut self) -> (result: Result<String, Stop>)
        requires
            old(self).wf(),
            old(self)@.misuse(Operation::NextString) is None,
        ensures
            final(self).wf(),
            final(self).source() == old(self).source(),
            final(self)@ == old(self)@.next_string().0,
            old(self)@.next_string().1.is_string(result),
    {
        proof {
            self@.lemma_ready(Operation::NextString);
            self@.lemma_next_string();
        }
        self.ongoing = None;
        let result = self.read_string(true, false);
        match self.conclude(Operation::NextString, result) {
            Ok(value) => Ok(self.get_string(value)),
            Err(stop) => Err(stop),
        }
    }

    /// Consumes and returns a JSON string value as `str`
    pub fn next_str(&mut self) -> (result: Result<&str, Stop>)
        requires
            old(self).wf(),
            old(self)@.misuse(Operation::NextString) is None,
        ensures
            final(self).wf(),
            final(self).source() == old(self).source(),
            final(self)@ == old(self)@.next_string().0,
            old(self)@.next_string().1.is_str(result),
    {
        proof {
            self@.lemma_ready(Operation::NextString);
            self@.lemma_next_string();
        }
        self.ongoing = None;
        let result = self.read_string(true, true);
        match self.conclude(Operation::NextString, result) {
            Ok(value) => Ok(self.get_str(&value)),
            Err(stop) => Err(stop),
        }
    }

    /// Consumes and returns the string representation of a JSON number value as `String`
    pub fn next_number_as_string(&mut self) -> (result: Result<String, Stop>)
        requires
            old(self).wf(),
            old(self)@.misuse(Operation::NextNumber) is None,
        ensures
            final(self).wf(),
            final(self).source() == old(self).source(),
            final(self)@ == old(self)@.next_number().0,
            old(self)@.next_number().1.is_string(result),
    {
        proof {
            self@.lemma_ready(Operation::NextNumber);
            self@.lemma_next_number();
        }
        self.ongoing = None;
        let result = self.read_number_bytes(true, false);
        match self.conclude(Operation::NextNumber, result) {
            Ok(value) => Ok(self.get_string(value)),
            Err(stop) => Err(stop),
        }
    }

    /// Consumes and returns the string representation of a JSON number value as `str`
    pub fn next_number_as_str(&mut self) -> (result: Result<&str, Stop>)
        requires
            old(self).wf(),
            old(self)@.misuse(Operation::NextNumber) is None,
        ensures
            final(self).wf(),
            final(self).source() == old(self).source(),
            final(self)@ == old(self)@.next_number().0,
            old(self)@.next_number().1.is_str(result),
    {
        proof {
            self@.lemma_ready(Operation::NextNumber);
            self@.lemma_next_number();
        }
        self.ongoing = None;
        let result = self.read_number_bytes(true, true);
        match self.conclude(Operation::NextNumber, result) {
            Ok(value) => Ok(self.get_str(&value)),
            Err(stop) => Err(stop),
        }
    }

    /// Determines what has to be written next to transfer the next JSON value to a writer
    ///
    /// Has to be called repeatedly, and what the actions ask for has to be written, until the
    /// action is [`TransferAction::Finished`].
    pub fn transfer_next(&mut self) -> (result: Result<TransferAction, Stop>)
        requires
            old(self).wf(),
            old(self)@.misuse(Operation::TransferTo) is None,
        ensures
            final(self).wf(),
            final(self).source() == old(self).source(),
            final(self)@ == old(self)@.transfer_next().0,
            old(self)@.transfer_next().1.is_action(result),
    {
        proof {
            self@.lemma_ready(Operation::TransferTo);
            self@.lemma_transfer_next();
        }
        self.ongoing = None;
        let result = self.transfer_any();
        self.ongoing = match &result {
            Err(Stop::Error(_)) | Ok(TransferAction::Finished) => None,
            _ => Some(Operation::TransferTo),
        };
        result
    }
}

} // verus!
