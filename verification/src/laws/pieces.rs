//! Laws: what data is received at once does not matter.
//!
//! An operation which stopped because the received data does not suffice, and is continued after
//! more data was received, has the same effect and result as if all of that data had been received
//! before it was called. And data which is received before it is needed makes no difference.

use vstd::prelude::*;

use crate::error::ValueType;
use crate::model::{Operation, ReaderModel, TransferProgress};
use crate::token::StackValue;

verus! {

impl ReaderModel {
    /// Peeking does not depend on how the data is divided into pieces.
    pub proof fn law_peek_of_pieces(self, bytes: Seq<u8>, eof: bool)
        requires
            self.valid(),
            self.misuse(Operation::Peek) is None,
            !self.scan.pending.eof,
            self.has_room(bytes),
        ensures
            ReaderModel::continues(
                self.peek(),
                self.peek().0.extended(bytes, eof).peek(),
                self.extended(bytes, eof).peek(),
                bytes,
                eof,
            ),
    {
        self.lemma_ready(Operation::Peek);
        let m = self.picked_up();
        m.lemma_peek_value();
        m.lemma_peek_value_extended(bytes, eof);
        let (next, outcome) = m.peek_value();
        assert(self.extended(bytes, eof).picked_up() == m.extended(bytes, eof));
        if outcome is NeedsInput {
            assert(self.peek().0.extended(bytes, eof).picked_up() == next.extended(bytes, eof));
        }
    }

    /// Starting an array does not depend on how the data is divided into pieces.
    pub proof fn law_begin_array_of_pieces(self, bytes: Seq<u8>, eof: bool)
        requires
            self.valid(),
            self.misuse(Operation::BeginArray) is None,
            !self.scan.pending.eof,
            self.has_room(bytes),
        ensures
            ReaderModel::continues(
                self.begin_array(),
                self.begin_array().0.extended(bytes, eof).begin_array(),
                self.extended(bytes, eof).begin_array(),
                bytes,
                eof,
            ),
    {
        self.lemma_ready(Operation::BeginArray);
        let m = self.picked_up();
        m.lemma_begin_container(StackValue::Array);
        m.lemma_begin_container_extended(StackValue::Array, bytes, eof);
        let (next, outcome) = m.begin_container(StackValue::Array);
        assert(self.extended(bytes, eof).picked_up() == m.extended(bytes, eof));
        if outcome is NeedsInput {
            assert(self.begin_array().0.extended(bytes, eof).picked_up() == next.extended(bytes, eof));
        }
    }

    /// Ending an array does not depend on how the data is divided into pieces.
    pub proof fn law_end_array_of_pieces(self, bytes: Seq<u8>, eof: bool)
        requires
            self.valid(),
            self.misuse(Operation::EndArray) is None,
            !self.scan.pending.eof,
            self.has_room(bytes),
        ensures
            ReaderModel::continues(
                self.end_array(),
                self.end_array().0.extended(bytes, eof).end_array(),
                self.extended(bytes, eof).end_array(),
                bytes,
                eof,
            ),
    {
        self.lemma_ready(Operation::EndArray);
        let m = self.picked_up();
        m.lemma_end_container(StackValue::Array);
        m.lemma_end_container_extended(StackValue::Array, bytes, eof);
        let (next, outcome) = m.end_container(StackValue::Array);
        assert(self.extended(bytes, eof).picked_up() == m.extended(bytes, eof));
        if outcome is NeedsInput {
            assert(self.end_array().0.extended(bytes, eof).picked_up() == next.extended(bytes, eof));
        }
    }

    /// Starting an object does not depend on how the data is divided into pieces.
    pub proof fn law_begin_object_of_pieces(self, bytes: Seq<u8>, eof: bool)
        requires
            self.valid(),
            self.misuse(Operation::BeginObject) is None,
            !self.scan.pending.eof,
            self.has_room(bytes),
        ensures
            ReaderModel::continues(
                self.begin_object(),
                self.begin_object().0.extended(bytes, eof).begin_object(),
                self.extended(bytes, eof).begin_object(),
                bytes,
                eof,
            ),
    {
        self.lemma_ready(Operation::BeginObject);
        let m = self.picked_up();
        m.lemma_begin_container(StackValue::Object);
        m.lemma_begin_container_extended(StackValue::Object, bytes, eof);
        let (next, outcome) = m.begin_container(StackValue::Object);
        assert(self.extended(bytes, eof).picked_up() == m.extended(bytes, eof));
        if outcome is NeedsInput {
            assert(self.begin_object().0.extended(bytes, eof).picked_up() == next.extended(bytes, eof));
        }
    }

    /// Ending an object does not depend on how the data is divided into pieces.
    pub proof fn law_end_object_of_pieces(self, bytes: Seq<u8>, eof: bool)
        requires
            self.valid(),
            self.misuse(Operation::EndObject) is None,
            !self.scan.pending.eof,
            self.has_room(bytes),
        ensures
            ReaderModel::continues(
                self.end_object(),
                self.end_object().0.extended(bytes, eof).end_object(),
                self.extended(bytes, eof).end_object(),
                bytes,
                eof,
            ),
    {
        self.lemma_ready(Operation::EndObject);
        let m = self.picked_up();
        m.lemma_end_container(StackValue::Object);
        m.lemma_end_container_extended(StackValue::Object, bytes, eof);
        let (next, outcome) = m.end_container(StackValue::Object);
        assert(self.extended(bytes, eof).picked_up() == m.extended(bytes, eof));
        if outcome is NeedsInput {
            assert(self.end_object().0.extended(bytes, eof).picked_up() == next.extended(bytes, eof));
        }
    }

    /// Checking for a next element does not depend on how the data is divided into pieces.
    pub proof fn law_has_next_of_pieces(self, bytes: Seq<u8>, eof: bool)
        requires
            self.valid(),
            self.misuse(Operation::HasNext) is None,
            !self.scan.pending.eof,
            self.has_room(bytes),
        ensures
            ReaderModel::continues(
                self.has_next(),
                self.has_next().0.extended(bytes, eof).has_next(),
                self.extended(bytes, eof).has_next(),
                bytes,
                eof,
            ),
    {
        reveal(ReaderModel::has_next);
        self.lemma_ready(Operation::HasNext);
        let m = self.picked_up();
        m.lemma_check_next();
        m.lemma_check_next_extended(bytes, eof);
        let (next, outcome) = m.check_next();
        assert(self.extended(bytes, eof).picked_up() == m.extended(bytes, eof));
        if outcome is NeedsInput {
            assert(self.has_next().0.extended(bytes, eof).picked_up() == next.extended(bytes, eof));
        }
    }

    /// Reading a member name does not depend on how the data is divided into pieces.
    pub proof fn law_next_name_of_pieces(self, bytes: Seq<u8>, eof: bool)
        requires
            self.valid(),
            self.misuse(Operation::NextName) is None,
            !self.scan.pending.eof,
            self.has_room(bytes),
        ensures
            ReaderModel::continues(
                self.next_name(),
                self.next_name().0.extended(bytes, eof).next_name(),
                self.extended(bytes, eof).next_name(),
                bytes,
                eof,
            ),
    {
        reveal(ReaderModel::next_name);
        self.lemma_ready(Operation::NextName);
        let m = self.picked_up();
        m.lemma_read_name(true);
        m.lemma_read_name_extended(true, bytes, eof);
        let (next, outcome) = m.read_name(true);
        assert(self.extended(bytes, eof).picked_up() == m.extended(bytes, eof));
        if outcome is NeedsInput {
            assert(self.next_name().0.extended(bytes, eof).picked_up() == next.extended(bytes, eof));
        }
    }

    /// Reading a string value does not depend on how the data is divided into pieces.
    pub proof fn law_next_string_of_pieces(self, bytes: Seq<u8>, eof: bool)
        requires
            self.valid(),
            self.misuse(Operation::NextString) is None,
            !self.scan.pending.eof,
            self.has_room(bytes),
        ensures
            ReaderModel::continues(
                self.next_string(),
                self.next_string().0.extended(bytes, eof).next_string(),
                self.extended(bytes, eof).next_string(),
                bytes,
                eof,
            ),
    {
        self.lemma_ready(Operation::NextString);
        let m = self.picked_up();
        m.lemma_read_string(true);
        m.lemma_read_string_extended(true, bytes, eof);
        let (next, outcome) = m.read_string(true);
        assert(self.extended(bytes, eof).picked_up() == m.extended(bytes, eof));
        if outcome is NeedsInput {
            assert(self.next_string().0.extended(bytes, eof).picked_up() == next.extended(bytes, eof));
        }
    }

    /// Starting to read a string value in a streaming way does not depend on how the data is
    /// divided into pieces.
    pub proof fn law_next_string_reader_of_pieces(self, bytes: Seq<u8>, eof: bool)
        requires
            self.valid(),
            self.misuse(Operation::NextStringReader) is None,
            !self.scan.pending.eof,
            self.has_room(bytes),
        ensures
            ReaderModel::continues(
                self.next_string_reader(),
                self.next_string_reader().0.extended(bytes, eof).next_string_reader(),
                self.extended(bytes, eof).next_string_reader(),
                bytes,
                eof,
            ),
    {
        self.lemma_ready(Operation::NextStringReader);
        let m = self.picked_up();
        m.lemma_start_value(ValueType::String, false);
        m.lemma_start_value_extended(ValueType::String, false, bytes, eof);
        let (next, outcome) = m.start_value(ValueType::String, false);
        assert(self.extended(bytes, eof).picked_up() == m.extended(bytes, eof));
        if outcome is NeedsInput {
            assert(self.next_string_reader().0.extended(bytes, eof).picked_up() == next.extended(bytes, eof));
        }
    }

    /// Reading a number does not depend on how the data is divided into pieces.
    pub proof fn law_next_number_of_pieces(self, bytes: Seq<u8>, eof: bool)
        requires
            self.valid(),
            self.misuse(Operation::NextNumber) is None,
            !self.scan.pending.eof,
            self.has_room(bytes),
        ensures
            ReaderModel::continues(
                self.next_number(),
                self.next_number().0.extended(bytes, eof).next_number(),
                self.extended(bytes, eof).next_number(),
                bytes,
                eof,
            ),
    {
        self.lemma_ready(Operation::NextNumber);
        let m = self.picked_up();
        m.lemma_read_number(true);
        m.lemma_read_number_extended(true, bytes, eof);
        let (next, outcome) = m.read_number(true);
        assert(self.extended(bytes, eof).picked_up() == m.extended(bytes, eof));
        if outcome is NeedsInput {
            assert(self.next_number().0.extended(bytes, eof).picked_up() == next.extended(bytes, eof));
        }
    }

    /// Reading a boolean does not depend on how the data is divided into pieces.
    pub proof fn law_next_bool_of_pieces(self, bytes: Seq<u8>, eof: bool)
        requires
            self.valid(),
            self.misuse(Operation::NextBool) is None,
            !self.scan.pending.eof,
            self.has_room(bytes),
        ensures
            ReaderModel::continues(
                self.next_bool(),
                self.next_bool().0.extended(bytes, eof).next_bool(),
                self.extended(bytes, eof).next_bool(),
                bytes,
                eof,
            ),
    {
        self.lemma_ready(Operation::NextBool);
        let m = self.picked_up();
        m.lemma_read_bool();
        m.lemma_read_bool_extended(bytes, eof);
        let (next, outcome) = m.read_bool();
        assert(self.extended(bytes, eof).picked_up() == m.extended(bytes, eof));
        if outcome is NeedsInput {
            assert(self.next_bool().0.extended(bytes, eof).picked_up() == next.extended(bytes, eof));
        }
    }

    /// Reading a null value does not depend on how the data is divided into pieces.
    pub proof fn law_next_null_of_pieces(self, bytes: Seq<u8>, eof: bool)
        requires
            self.valid(),
            self.misuse(Operation::NextNull) is None,
            !self.scan.pending.eof,
            self.has_room(bytes),
        ensures
            ReaderModel::continues(
                self.next_null(),
                self.next_null().0.extended(bytes, eof).next_null(),
                self.extended(bytes, eof).next_null(),
                bytes,
                eof,
            ),
    {
        self.lemma_ready(Operation::NextNull);
        let m = self.picked_up();
        m.lemma_read_null();
        m.lemma_read_null_extended(bytes, eof);
        let (next, outcome) = m.read_null();
        assert(self.extended(bytes, eof).picked_up() == m.extended(bytes, eof));
        if outcome is NeedsInput {
            assert(self.next_null().0.extended(bytes, eof).picked_up() == next.extended(bytes, eof));
        }
    }

    /// Skipping a member name does not depend on how the data is divided into pieces.
    pub proof fn law_skip_name_of_pieces(self, bytes: Seq<u8>, eof: bool)
        requires
            self.valid(),
            self.misuse(Operation::SkipName) is None,
            !self.scan.pending.eof,
            self.has_room(bytes),
        ensures
            ReaderModel::continues(
                self.skip_name(),
                self.skip_name().0.extended(bytes, eof).skip_name(),
                self.extended(bytes, eof).skip_name(),
                bytes,
                eof,
            ),
    {
        self.lemma_ready(Operation::SkipName);
        let m = self.picked_up();
        m.lemma_pass_name();
        m.lemma_pass_name_extended(bytes, eof);
        let (next, outcome) = m.pass_name();
        assert(self.extended(bytes, eof).picked_up() == m.extended(bytes, eof));
        if outcome is NeedsInput {
            assert(self.skip_name().0.extended(bytes, eof).picked_up() == next.extended(bytes, eof));
        }
    }

    /// Skipping a value does not depend on how the data is divided into pieces.
    pub proof fn law_skip_value_of_pieces(self, bytes: Seq<u8>, eof: bool)
        requires
            self.valid(),
            self.misuse(Operation::SkipValue) is None,
            !self.scan.pending.eof,
            self.has_room(bytes),
        ensures
            ReaderModel::continues(
                self.skip_value(),
                self.skip_value().0.extended(bytes, eof).skip_value(),
                self.extended(bytes, eof).skip_value(),
                bytes,
                eof,
            ),
    {
        self.lemma_ready(Operation::SkipValue);
        let m = self.picked_up();
        m.lemma_pass_value();
        m.lemma_pass_value_extended(bytes, eof);
        let (next, outcome) = m.pass_value();
        assert(self.extended(bytes, eof).picked_up() == m.extended(bytes, eof));
        if outcome is NeedsInput {
            assert(self.skip_value().0.extended(bytes, eof).picked_up() == next.extended(bytes, eof));
        }
    }

    /// Skipping to the top-level does not depend on how the data is divided into pieces.
    pub proof fn law_skip_to_top_level_of_pieces(self, bytes: Seq<u8>, eof: bool)
        requires
            self.valid(),
            self.misuse(Operation::SkipToTopLevel) is None,
            !self.scan.pending.eof,
            self.has_room(bytes),
        ensures
            ReaderModel::continues(
                self.skip_to_top_level(),
                self.skip_to_top_level().0.extended(bytes, eof).skip_to_top_level(),
                self.extended(bytes, eof).skip_to_top_level(),
                bytes,
                eof,
            ),
    {
        self.lemma_ready(Operation::SkipToTopLevel);
        let m = self.picked_up();
        m.lemma_pass_to_top_level();
        m.lemma_pass_to_top_level_extended(bytes, eof);
        let (next, outcome) = m.pass_to_top_level();
        assert(self.extended(bytes, eof).picked_up() == m.extended(bytes, eof));
        if outcome is NeedsInput {
            assert(self.skip_to_top_level().0.extended(bytes, eof).picked_up() == next.extended(bytes, eof));
        }
    }

    /// Consuming trailing whitespace does not depend on how the data is divided into pieces.
    pub proof fn law_consume_trailing_whitespace_of_pieces(self, bytes: Seq<u8>, eof: bool)
        requires
            self.valid(),
            self.misuse(Operation::ConsumeTrailingWhitespace) is None,
            !self.scan.pending.eof,
            self.has_room(bytes),
        ensures
            ReaderModel::continues(
                self.consume_trailing_whitespace(),
                self.consume_trailing_whitespace().0.extended(bytes, eof).consume_trailing_whitespace(),
                self.extended(bytes, eof).consume_trailing_whitespace(),
                bytes,
                eof,
            ),
    {
        self.lemma_ready(Operation::ConsumeTrailingWhitespace);
        let m = self.picked_up();
        m.lemma_pass_trailing_whitespace();
        m.lemma_pass_trailing_whitespace_extended(bytes, eof);
        let (next, outcome) = m.pass_trailing_whitespace();
        assert(self.extended(bytes, eof).picked_up() == m.extended(bytes, eof));
        if outcome is NeedsInput {
            assert(self.consume_trailing_whitespace().0.extended(bytes, eof).picked_up() == next.extended(bytes, eof));
        }
    }

    /// Transferring a value does not depend on how the data is divided into pieces.
    pub proof fn law_transfer_next_of_pieces(self, bytes: Seq<u8>, eof: bool)
        requires
            self.valid(),
            self.misuse(Operation::TransferTo) is None,
            !self.scan.pending.eof,
            self.has_room(bytes),
        ensures
            ReaderModel::continues(
                self.transfer_next(),
                self.transfer_next().0.extended(bytes, eof).transfer_next(),
                self.extended(bytes, eof).transfer_next(),
                bytes,
                eof,
            ),
    {
        self.lemma_ready(Operation::TransferTo);
        let m = self.picked_up();
        let transfer = match m.transfer {
            Some(transfer) => transfer,
            None => TransferProgress { base: m.stack.len(), started: false },
        };
        let transferring = ReaderModel { transfer: Some(transfer), ..m };
        assert(m.transfer_any() == transferring.transfer_step(transfer)) by {
            reveal(ReaderModel::transfer_any);
        }
        assert(self.extended(bytes, eof).picked_up() == m.extended(bytes, eof));
        assert(m.extended(bytes, eof).transfer_any() == transferring.extended(
            bytes,
            eof,
        ).transfer_step(transfer)) by {
            reveal(ReaderModel::transfer_any);
        }
        transferring.lemma_transfer_step(transfer);
        transferring.lemma_transfer_step_extended(transfer, bytes, eof);
        let (next, outcome) = transferring.transfer_step(transfer);
        if outcome is NeedsInput {
            assert(self.transfer_next().0.extended(bytes, eof).picked_up() == next.extended(
                bytes,
                eof,
            ));
            assert(next.extended(bytes, eof).transfer_any() == next.extended(
                bytes,
                eof,
            ).transfer_step(transfer)) by {
                reveal(ReaderModel::transfer_any);
            }
        }
    }
}

} // verus!
