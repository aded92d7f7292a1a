//! Correct usage of the JSON reader.

use vstd::prelude::*;

use crate::model::{Operation, ReaderModel};

verus! {

/// Incorrect usage of the JSON reader
///
/// Describes why an operation must not be called in the current state of the reader.
#[derive(Debug, Clone, Copy, PartialEq, Eq, Structural)]
pub enum Misuse {
    /// Another operation has not completed yet
    OperationInProgress,
    PeekWithStringReader,
    PeekBehindTopLevel,
    PeekExpectingName,
    ReadValueExpectingName,
    NameNotExpected,
    NameWithStringReader,
    EndArrayOutsideArray,
    EndObjectOutsideObject,
    EndObjectExpectingValue,
    HasNextExpectingValue,
    HasNextBeforeTopLevel,
    HasNextMultipleTopLevelDisabled,
    SkipValueExpectingName,
    SkipToTopLevelWithStringReader,
    TransferExpectingName,
    TrailingWhitespaceWithStringReader,
    TrailingWhitespaceBeforeTopLevel,
    TrailingWhitespaceInsideTopLevel,
}

impl Misuse {
    /// A description of the incorrect usage.
    pub fn message(&self) -> (message: &'static str)
        ensures
            message@ == self.text(),
    {
        match self {
            Misuse::OperationInProgress => "Incorrect reader usage: Cannot start operation when other operation has not completed",
            Misuse::PeekWithStringReader => "Incorrect reader usage: Cannot peek when string value reader is active",
            Misuse::PeekBehindTopLevel => "Incorrect reader usage: Cannot peek when top-level value has already been consumed and multiple top-level values are not enabled in settings",
            Misuse::PeekExpectingName => "Incorrect reader usage: Cannot peek value when expecting member name",
            Misuse::ReadValueExpectingName => "Incorrect reader usage: Cannot read value when expecting member name",
            Misuse::NameNotExpected => "Incorrect reader usage: Cannot consume member name when not expecting it",
            Misuse::NameWithStringReader => "Incorrect reader usage: Cannot consume member name when string value reader is active",
            Misuse::EndArrayOutsideArray => "Incorrect reader usage: Cannot end array when not inside array",
            Misuse::EndObjectOutsideObject => "Incorrect reader usage: Cannot end object when not inside object",
            Misuse::EndObjectExpectingValue => "Incorrect reader usage: Cannot end object when member value is expected",
            Misuse::HasNextExpectingValue => "Incorrect reader usage: Cannot check for next element when member value is expected",
            Misuse::HasNextBeforeTopLevel => "Incorrect reader usage: Cannot check for next element when top-level value has not been started",
            Misuse::HasNextMultipleTopLevelDisabled => "Incorrect reader usage: Cannot check for multiple top-level values when not enabled in the reader settings",
            Misuse::SkipValueExpectingName => "Incorrect reader usage: Cannot skip value when expecting member name",
            Misuse::SkipToTopLevelWithStringReader => "Incorrect reader usage: Cannot skip to top-level when string value reader is active",
            Misuse::TransferExpectingName => "Incorrect reader usage: Cannot transfer value when expecting member name",
            Misuse::TrailingWhitespaceWithStringReader => "Incorrect reader usage: Cannot consume trailing whitespace when string value reader is active",
            Misuse::TrailingWhitespaceBeforeTopLevel => "Incorrect reader usage: Cannot skip trailing whitespace when top-level value has not been consumed yet",
            Misuse::TrailingWhitespaceInsideTopLevel => "Incorrect reader usage: Cannot skip trailing whitespace when top-level value has not been fully consumed yet",
        }
    }

    /// A description of the incorrect usage.
    pub open spec fn text(self) -> Seq<char> {
        match self {
            Misuse::OperationInProgress => "Incorrect reader usage: Cannot start operation when other operation has not completed"@,
            Misuse::PeekWithStringReader => "Incorrect reader usage: Cannot peek when string value reader is active"@,
            Misuse::PeekBehindTopLevel => "Incorrect reader usage: Cannot peek when top-level value has already been consumed and multiple top-level values are not enabled in settings"@,
            Misuse::PeekExpectingName => "Incorrect reader usage: Cannot peek value when expecting member name"@,
            Misuse::ReadValueExpectingName => "Incorrect reader usage: Cannot read value when expecting member name"@,
            Misuse::NameNotExpected => "Incorrect reader usage: Cannot consume member name when not expecting it"@,
            Misuse::NameWithStringReader => "Incorrect reader usage: Cannot consume member name when string value reader is active"@,
            Misuse::EndArrayOutsideArray => "Incorrect reader usage: Cannot end array when not inside array"@,
            Misuse::EndObjectOutsideObject => "Incorrect reader usage: Cannot end object when not inside object"@,
            Misuse::EndObjectExpectingValue => "Incorrect reader usage: Cannot end object when member value is expected"@,
            Misuse::HasNextExpectingValue => "Incorrect reader usage: Cannot check for next element when member value is expected"@,
            Misuse::HasNextBeforeTopLevel => "Incorrect reader usage: Cannot check for next element when top-level value has not been started"@,
            Misuse::HasNextMultipleTopLevelDisabled => "Incorrect reader usage: Cannot check for multiple top-level values when not enabled in the reader settings"@,
            Misuse::SkipValueExpectingName => "Incorrect reader usage: Cannot skip value when expecting member name"@,
            Misuse::SkipToTopLevelWithStringReader => "Incorrect reader usage: Cannot skip to top-level when string value reader is active"@,
            Misuse::TransferExpectingName => "Incorrect reader usage: Cannot transfer value when expecting member name"@,
            Misuse::TrailingWhitespaceWithStringReader => "Incorrect reader usage: Cannot consume trailing whitespace when string value reader is active"@,
            Misuse::TrailingWhitespaceBeforeTopLevel => "Incorrect reader usage: Cannot skip trailing whitespace when top-level value has not been consumed yet"@,
            Misuse::TrailingWhitespaceInsideTopLevel => "Incorrect reader usage: Cannot skip trailing whitespace when top-level value has not been fully consumed yet"@,
        }
    }
}

impl ReaderModel {
    /// Why the next token must not be peeked at, if so.
    pub open spec fn peek_misuse(self) -> Option<Misuse> {
        if self.string_reader_active {
            Some(Misuse::PeekWithStringReader)
        } else if self.peeked is None && self.is_behind_top_level()
            && !self.settings.allow_multiple_top_level {
            Some(Misuse::PeekBehindTopLevel)
        } else {
            None
        }
    }

    /// Why a value must not be processed, if so.
    pub open spec fn value_misuse(self, expecting_name: Misuse) -> Option<Misuse> {
        if self.expects_member_name {
            Some(expecting_name)
        } else {
            self.peek_misuse()
        }
    }

    /// Why an operation must not be started, if so.
    pub open spec fn start_misuse(self, operation: Operation) -> Option<Misuse> {
        match operation {
            Operation::Peek => self.value_misuse(Misuse::PeekExpectingName),
            Operation::BeginArray
            | Operation::BeginObject
            | Operation::NextString
            | Operation::NextStringReader
            | Operation::NextNumber
            | Operation::NextBool
            | Operation::NextNull => self.value_misuse(Misuse::ReadValueExpectingName),
            Operation::EndArray => if !self.is_in_array() {
                Some(Misuse::EndArrayOutsideArray)
            } else {
                self.peek_misuse()
            },
            Operation::EndObject => if !self.is_in_object() {
                Some(Misuse::EndObjectOutsideObject)
            } else if self.expects_member_value() {
                Some(Misuse::EndObjectExpectingValue)
            } else {
                self.peek_misuse()
            },
            Operation::HasNext => if self.expects_member_value() {
                Some(Misuse::HasNextExpectingValue)
            } else if self.stack.len() == 0 && self.is_empty {
                Some(Misuse::HasNextBeforeTopLevel)
            } else if self.stack.len() == 0 && !self.settings.allow_multiple_top_level {
                Some(Misuse::HasNextMultipleTopLevelDisabled)
            } else {
                self.peek_misuse()
            },
            Operation::NextName | Operation::SkipName => if !self.expects_member_name {
                Some(Misuse::NameNotExpected)
            } else if self.string_reader_active {
                Some(Misuse::NameWithStringReader)
            } else {
                None
            },
            Operation::SkipValue => self.value_misuse(Misuse::SkipValueExpectingName),
            Operation::SkipToTopLevel => if self.string_reader_active {
                Some(Misuse::SkipToTopLevelWithStringReader)
            } else {
                None
            },
            Operation::TransferTo => self.value_misuse(Misuse::TransferExpectingName),
            Operation::ConsumeTrailingWhitespace => if self.string_reader_active {
                Some(Misuse::TrailingWhitespaceWithStringReader)
            } else if self.stack.len() > 0 {
                Some(Misuse::TrailingWhitespaceInsideTopLevel)
            } else if self.is_empty {
                Some(Misuse::TrailingWhitespaceBeforeTopLevel)
            } else {
                None
            },
        }
    }

    /// Why an operation must not be called, if so.
    ///
    /// An operation which has not completed yet has to be continued before another one is called.
    pub open spec fn misuse(self, operation: Operation) -> Option<Misuse> {
        match self.ongoing {
            Some(ongoing) => if ongoing == operation {
                None
            } else {
                Some(Misuse::OperationInProgress)
            },
            None => self.start_misuse(operation),
        }
    }

    /// Whether no operation has been started without having completed.
    pub open spec fn at_rest(self) -> bool {
        &&& !self.colon_read
        &&& self.comma is None
        &&& self.scan.gap is Outside
        &&& self.doing is Idle
        &&& self.skip_base is None
        &&& self.transfer is None
    }

    /// Whether the state is one from which an operation can be started or continued.
    pub open spec fn is_ready_for(self, operation: Operation) -> bool {
        &&& self.consistent()
        &&& match operation {
            Operation::SkipValue => self.can_pass_value(),
            Operation::SkipToTopLevel => self.can_pass_to_top_level(),
            Operation::TransferTo => {
                &&& self.skip_base is None
                &&& match self.transfer {
                    Some(transfer) => self.can_transfer(transfer),
                    None => self.can_peek() && !self.expects_member_name,
                }
            },
            _ => self.skip_base is None && self.transfer is None,
        }
        &&& match operation {
            Operation::Peek
            | Operation::BeginArray
            | Operation::BeginObject
            | Operation::NextStringReader
            | Operation::NextBool
            | Operation::NextNull => self.can_peek() && !self.expects_member_name,
            Operation::EndArray => self.can_peek() && self.is_in_array(),
            Operation::EndObject => self.can_peek() && self.expects_member_name,
            Operation::HasNext => self.can_peek() && !self.expects_member_value(),
            Operation::NextName => {
                &&& self.can_resume()
                &&& self.doing is Idle && self.expects_member_name || self.doing is ReadingName
                    && self.scan.value is Some
            },
            Operation::SkipName => {
                &&& self.can_resume()
                &&& self.doing is Idle && self.expects_member_name || self.doing is ReadingName
            },
            Operation::NextString => {
                &&& self.can_resume()
                &&& self.doing is Idle && !self.expects_member_name || self.doing is ReadingString
                    && self.scan.value is Some
            },
            Operation::NextNumber => {
                &&& self.can_resume()
                &&& self.doing is Idle && !self.expects_member_name || self.doing is ReadingNumber
                    && self.scan.value is Some
            },
            Operation::ConsumeTrailingWhitespace => {
                &&& !self.string_reader_active
                &&& !self.colon_read
                &&& self.comma is None
                &&& self.doing is Idle
            },
            _ => true,
        }
    }

    /// The invariant of the reader.
    pub open spec fn valid(self) -> bool {
        &&& self.consistent()
        &&& match self.ongoing {
            Some(operation) => self.is_ready_for(operation),
            None => self.at_rest(),
        }
    }

    /// An operation can be started or continued wherever it may be called.
    pub proof fn lemma_ready(self, operation: Operation)
        requires
            self.valid(),
            self.misuse(operation) is None,
        ensures
            self.is_ready_for(operation),
    {
    }
}

} // verus!
