//! What the operations of the JSON reader mean when they are called, and that they keep its
//! invariant.

use vstd::prelude::*;

use crate::error::{Outcome, ValueType};
use crate::model::{Operation, ReaderModel, TransferProgress};
use crate::token::StackValue;
use crate::traversal::Transferred;

verus! {

impl ReaderModel {
    /// The operation which is called, and which may have stopped before, is being executed.
    pub open spec fn picked_up(self) -> ReaderModel {
        ReaderModel { ongoing: None, ..self }
    }

    /// Peeks at the type of the next JSON value, without consuming it.
    pub open spec fn peek(self) -> (ReaderModel, Outcome<ValueType>) {
        ReaderModel::concluded(Operation::Peek, self.picked_up().peek_value())
    }

    /// Begins consuming a JSON array.
    pub open spec fn begin_array(self) -> (ReaderModel, Outcome<()>) {
        ReaderModel::concluded(Operation::BeginArray, self.picked_up().begin_container(StackValue::Array))
    }

    /// Consumes the closing bracket of the current JSON array.
    pub open spec fn end_array(self) -> (ReaderModel, Outcome<()>) {
        ReaderModel::concluded(Operation::EndArray, self.picked_up().end_container(StackValue::Array))
    }

    /// Begins consuming a JSON object.
    pub open spec fn begin_object(self) -> (ReaderModel, Outcome<()>) {
        ReaderModel::concluded(Operation::BeginObject, self.picked_up().begin_container(StackValue::Object))
    }

    /// Consumes the closing bracket of the current JSON object.
    pub open spec fn end_object(self) -> (ReaderModel, Outcome<()>) {
        ReaderModel::concluded(Operation::EndObject, self.picked_up().end_container(StackValue::Object))
    }

    /// Checks if there is a next element in the current array or object, or at top-level.
    #[verifier::opaque]
    pub open spec fn has_next(self) -> (ReaderModel, Outcome<bool>) {
        ReaderModel::concluded(Operation::HasNext, self.picked_up().check_next())
    }

    /// Consumes the name of the next JSON object member.
    #[verifier::opaque]
    pub open spec fn next_name(self) -> (ReaderModel, Outcome<Seq<char>>) {
        ReaderModel::concluded(Operation::NextName, self.picked_up().read_name(true))
    }

    /// Consumes a JSON string value.
    pub open spec fn next_string(self) -> (ReaderModel, Outcome<Seq<char>>) {
        ReaderModel::concluded(Operation::NextString, self.picked_up().read_string(true))
    }

    /// Consumes the start of a JSON string value, whose characters are then read separately.
    pub open spec fn next_string_reader(self) -> (ReaderModel, Outcome<()>) {
        let (next, outcome) = self.picked_up().start_value(ValueType::String, false);
        ReaderModel::concluded(
            Operation::NextStringReader,
            match outcome {
                Outcome::Ready(_) => (
                    ReaderModel { string_reader_active: true, ..next },
                    Outcome::Ready(()),
                ),
                stopped => (next, stopped.stopped()),
            },
        )
    }

    /// Consumes a JSON number value.
    pub open spec fn next_number(self) -> (ReaderModel, Outcome<Seq<char>>) {
        ReaderModel::concluded(Operation::NextNumber, self.picked_up().read_number(true))
    }

    /// Consumes a JSON boolean value.
    pub open spec fn next_bool(self) -> (ReaderModel, Outcome<bool>) {
        ReaderModel::concluded(Operation::NextBool, self.picked_up().read_bool())
    }

    /// Consumes a JSON null value.
    pub open spec fn next_null(self) -> (ReaderModel, Outcome<()>) {
        ReaderModel::concluded(Operation::NextNull, self.picked_up().read_null())
    }

    /// Skips the name of the next JSON object member.
    pub open spec fn skip_name(self) -> (ReaderModel, Outcome<()>) {
        ReaderModel::concluded(Operation::SkipName, self.picked_up().pass_name())
    }

    /// Skips the next JSON value.
    pub open spec fn skip_value(self) -> (ReaderModel, Outcome<()>) {
        ReaderModel::concluded(Operation::SkipValue, self.picked_up().pass_value())
    }

    /// Skips the remaining elements of all started JSON arrays and objects.
    pub open spec fn skip_to_top_level(self) -> (ReaderModel, Outcome<()>) {
        ReaderModel::concluded(Operation::SkipToTopLevel, self.picked_up().pass_to_top_level())
    }

    /// Determines what has to be written next to transfer the next JSON value to a writer.
    ///
    /// The operation has completed when everything was transferred.
    pub open spec fn transfer_next(self) -> (ReaderModel, Outcome<Transferred>) {
        let (next, outcome) = self.picked_up().transfer_any();
        let completed = outcome is Failed || outcome matches Outcome::Ready(Transferred::Finished);
        let ongoing = if completed {
            None
        } else {
            Some(Operation::TransferTo)
        };
        (ReaderModel { ongoing, ..next }, outcome)
    }

    /// Consumes trailing whitespace at the end of the document.
    pub open spec fn consume_trailing_whitespace(self) -> (ReaderModel, Outcome<()>) {
        ReaderModel::concluded(
            Operation::ConsumeTrailingWhitespace,
            self.picked_up().pass_trailing_whitespace(),
        )
    }

    /// What holds of every operation which was called.
    pub open spec fn is_call<T>(self, operation: Operation, stop: (ReaderModel, Outcome<T>)) -> bool {
        let (next, outcome) = stop;
        &&& next.valid()
        &&& next.settings == self.settings
        &&& next.scan.pending.eof == self.scan.pending.eof
        &&& next.scan.pending.bytes.len() <= self.scan.pending.bytes.len()
        &&& outcome is NeedsInput ==> {
            &&& !self.scan.pending.eof
            &&& next.scan.pending.bytes.len() <= 11
            &&& next.ongoing == Some(operation)
        }
        &&& outcome is Failed ==> next.ongoing is None
        &&& next.scan.total() + next.unaccounted() <= self.scan.total() + self.unaccounted()
        &&& !(outcome is Failed) ==> next.scan.total() + next.unaccounted() == self.scan.total()
            + self.unaccounted()
    }

    pub proof fn lemma_peek(self)
        requires
            self.is_ready_for(Operation::Peek),
        ensures
            self.is_call(Operation::Peek, self.peek()),
    {
        self.picked_up().lemma_peek_value();
    }

    pub proof fn lemma_begin_array(self)
        requires
            self.is_ready_for(Operation::BeginArray),
        ensures
            self.is_call(Operation::BeginArray, self.begin_array()),
    {
        self.picked_up().lemma_begin_container(StackValue::Array);
    }

    pub proof fn lemma_end_array(self)
        requires
            self.is_ready_for(Operation::EndArray),
        ensures
            self.is_call(Operation::EndArray, self.end_array()),
    {
        self.picked_up().lemma_end_container(StackValue::Array);
    }

    pub proof fn lemma_begin_object(self)
        requires
            self.is_ready_for(Operation::BeginObject),
        ensures
            self.is_call(Operation::BeginObject, self.begin_object()),
    {
        self.picked_up().lemma_begin_container(StackValue::Object);
    }

    pub proof fn lemma_end_object(self)
        requires
            self.is_ready_for(Operation::EndObject),
        ensures
            self.is_call(Operation::EndObject, self.end_object()),
    {
        self.picked_up().lemma_end_container(StackValue::Object);
    }

    pub proof fn lemma_has_next(self)
        requires
            self.is_ready_for(Operation::HasNext),
        ensures
            self.is_call(Operation::HasNext, self.has_next()),
    {
        reveal(ReaderModel::has_next);
        self.picked_up().lemma_check_next();
    }

    pub proof fn lemma_next_name(self)
        requires
            self.is_ready_for(Operation::NextName),
        ensures
            self.is_call(Operation::NextName, self.next_name()),
    {
        reveal(ReaderModel::next_name);
        self.picked_up().lemma_read_name(true);
    }

    pub proof fn lemma_next_string(self)
        requires
            self.is_ready_for(Operation::NextString),
        ensures
            self.is_call(Operation::NextString, self.next_string()),
    {
        self.picked_up().lemma_read_string(true);
    }

    pub proof fn lemma_next_string_reader(self)
        requires
            self.is_ready_for(Operation::NextStringReader),
        ensures
            self.is_call(Operation::NextStringReader, self.next_string_reader()),
    {
        self.picked_up().lemma_start_value(ValueType::String, false);
    }

    pub proof fn lemma_next_number(self)
        requires
            self.is_ready_for(Operation::NextNumber),
        ensures
            self.is_call(Operation::NextNumber, self.next_number()),
    {
        self.picked_up().lemma_read_number(true);
    }

    pub proof fn lemma_next_bool(self)
        requires
            self.is_ready_for(Operation::NextBool),
        ensures
            self.is_call(Operation::NextBool, self.next_bool()),
    {
        self.picked_up().lemma_read_bool();
    }

    pub proof fn lemma_next_null(self)
        requires
            self.is_ready_for(Operation::NextNull),
        ensures
            self.is_call(Operation::NextNull, self.next_null()),
    {
        self.picked_up().lemma_read_null();
    }

    pub proof fn lemma_skip_name(self)
        requires
            self.is_ready_for(Operation::SkipName),
        ensures
            self.is_call(Operation::SkipName, self.skip_name()),
    {
        self.picked_up().lemma_pass_name();
    }

    pub proof fn lemma_skip_value(self)
        requires
            self.is_ready_for(Operation::SkipValue),
        ensures
            self.is_call(Operation::SkipValue, self.skip_value()),
    {
        self.picked_up().lemma_pass_value();
    }

    pub proof fn lemma_skip_to_top_level(self)
        requires
            self.is_ready_for(Operation::SkipToTopLevel),
        ensures
            self.is_call(Operation::SkipToTopLevel, self.skip_to_top_level()),
    {
        self.picked_up().lemma_pass_to_top_level();
        let (next, outcome) = self.picked_up().pass_to_top_level();
        assert(self.picked_up().leads_to((next, outcome)));
        if outcome is Ready {
            assert(ReaderModel { ongoing: None, ..next }.valid());
        } else if outcome is NeedsInput {
            assert(next.can_pass_to_top_level());
            let waiting = ReaderModel { ongoing: Some(Operation::SkipToTopLevel), ..next };
            assert(waiting.can_pass_to_top_level());
            assert(waiting.valid());
        }
    }

    pub proof fn lemma_transfer_next(self)
        requires
            self.is_ready_for(Operation::TransferTo),
        ensures
            self.is_call(Operation::TransferTo, self.transfer_next()),
    {
        reveal(ReaderModel::transfer_any);
        match self.transfer {
            Some(transfer) => self.picked_up().lemma_transfer_step(transfer),
            None => {
                let transfer = TransferProgress { base: self.stack.len(), started: false };
                ReaderModel {
                    transfer: Some(transfer),
                    ..self.picked_up()
                }.lemma_transfer_step(transfer);
            },
        }
    }

    pub proof fn lemma_consume_trailing_whitespace(self)
        requires
            self.is_ready_for(Operation::ConsumeTrailingWhitespace),
        ensures
            self.is_call(
                Operation::ConsumeTrailingWhitespace,
                self.consume_trailing_whitespace(),
            ),
    {
        self.picked_up().lemma_pass_trailing_whitespace();
    }
}

} // verus!
