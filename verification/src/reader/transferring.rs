//! Transfer of values to a writer.

use vstd::prelude::*;
use vstd::utf8::*;

use super::JsonStreamReader;
use crate::error::{Outcome, Stop, ValueType};
use crate::model::{Activity, ReaderModel, Transfer};
use crate::scan::StringEnd;
use crate::token::StackValue;
use crate::traversal::{Transferred, PIECE_LIMIT};

verus! {

/// What has to be written next while a value is transferred to a writer
#[derive(Debug, PartialEq, Eq)]
pub enum TransferAction {
    /// Start an array
    BeginArray,
    /// End the current array
    EndArray,
    /// Start an object
    BeginObject,
    /// End the current object
    EndObject,
    /// Write a member name
    Name(String),
    /// Start a string value, which is written in pieces
    BeginString,
    /// Write a piece of a string value; if it is the last one, the string value ends behind it
    StringPiece { text: String, last: bool },
    /// Write a number
    Number(String),
    /// Write a boolean
    Bool(bool),
    /// Write `null`
    Null,
    /// Everything has been transferred
    Finished,
}

impl View for TransferAction {
    type V = Transferred;

    open spec fn view(&self) -> Transferred {
        match self {
            TransferAction::BeginArray => Transferred::BeginArray,
            TransferAction::EndArray => Transferred::EndArray,
            TransferAction::BeginObject => Transferred::BeginObject,
            TransferAction::EndObject => Transferred::EndObject,
            TransferAction::Name(name) => Transferred::Name(name@),
            TransferAction::BeginString => Transferred::BeginString,
            TransferAction::StringPiece { text, last } => Transferred::StringPiece {
                text: text@,
                last: *last,
            },
            TransferAction::Number(number) => Transferred::Number(number@),
            TransferAction::Bool(value) => Transferred::Bool(*value),
            TransferAction::Null => Transferred::Null,
            TransferAction::Finished => Transferred::Finished,
        }
    }
}

impl Outcome<Transferred> {
    /// Whether an operation with this outcome returned the action.
    pub open spec fn is_action(self, result: Result<TransferAction, Stop>) -> bool {
        match result {
            Ok(action) => self == Outcome::Ready(action@),
            Err(stop) => stop.tells(self),
        }
    }
}

impl<R> JsonStreamReader<R> {
    /// Reads string characters until a piece is complete.
    fn read_piece(&mut self) -> (end: Option<StringEnd>)
        requires
            old(self).scanner.wf(),
            old(self)@.scan.value is Some,
            old(self)@.scan.value->0.len() <= 64,
        ensures
            ({
                let (scan, expected) = old(self)@.scan.read_piece();
                &&& old(self).moved_to(*final(self), ReaderModel { scan, ..old(self)@ })
                &&& end == expected
            }),
    {
        loop
            invariant
                self.scanner.wf(),
                self.reader == old(self).reader,
                self@ == (ReaderModel { scan: self@.scan, ..old(self)@ }),
                self@.scan.value is Some,
                self@.scan.value->0.len() <= 64,
                self@.scan.read_piece() == old(self)@.scan.read_piece(),
            decreases self@.scan.pending.bytes.len(),
        {
            // A piece must have enough bytes free for the next char
            if self.scanner.value_len() > PIECE_LIMIT {
                return None;
            }
            proof {
                self@.scan.lemma_string_step();
                self@.scan.pending.lemma_string_char();
            }
            let end = self.scanner.read_string_char();
            if end.is_some() {
                return end;
            }
        }
    }

    /// Continues a string value which is transferred in pieces.
    fn transfer_piece(&mut self) -> (result: Result<TransferAction, Stop>)
        requires
            old(self).scanner.wf(),
            old(self)@.consistent(),
            old(self)@.scan.value is Some,
            old(self)@.scan.value->0.len() <= 64,
        ensures
            old(self).moved_to(*final(self), old(self)@.transfer_piece().0),
            old(self)@.transfer_piece().1.is_action(result),
    {
        proof {
            self@.scan.lemma_read_piece();
        }
        match self.read_piece() {
            None => {
                let value = self.scanner.finish_value(false);
                let text = self.get_string(value);
                self.scanner.begin_value();
                self.activity = Activity::TransferringString;
                Ok(TransferAction::StringPiece { text, last: false })
            },
            Some(StringEnd::Quote) => {
                let value = self.scanner.finish_string(false);
                let text = self.get_string(value);
                self.activity = Activity::StringTransferred;
                Ok(TransferAction::StringPiece { text, last: true })
            },
            Some(StringEnd::NeedsInput) => Err(Stop::NeedsInput),
            Some(StringEnd::Rejected(rejection)) => self.reject(rejection),
        }
    }

    /// Records that the start of the transferred value has been consumed.
    fn set_transfer_started(&mut self)
        requires
            old(self).scanner.wf(),
        ensures
            old(self).moved_to(*final(self), old(self)@.transfer_started()),
            final(self).scanner == old(self).scanner,
    {
        if let Some(transfer) = self.transfer {
            self.transfer = Some(Transfer { base: transfer.base, started: true });
        }
    }

    fn transfer_name(&mut self) -> (result: Result<TransferAction, Stop>)
        requires
            old(self).scanner.wf(),
            old(self)@.can_resume(),
            old(self)@.doing is Idle && old(self)@.expects_member_name || old(self)@.doing
                is ReadingName && old(self)@.scan.value is Some,
        ensures
            old(self).moved_to(*final(self), old(self)@.transfer_name().0),
            old(self)@.transfer_name().1.is_action(result),
    {
        let value = self.read_name(true, false)?;
        let name = self.get_string(value);
        self.set_member_name(name.clone());
        Ok(TransferAction::Name(name))
    }

    fn transfer_number(&mut self) -> (result: Result<TransferAction, Stop>)
        requires
            old(self).scanner.wf(),
            old(self)@.can_resume(),
            old(self)@.doing is Idle && !old(self)@.expects_member_name || old(self)@.doing
                is ReadingNumber && old(self)@.scan.value is Some,
        ensures
            old(self).moved_to(*final(self), old(self)@.transfer_number().0),
            old(self)@.transfer_number().1.is_action(result),
    {
        let value = self.read_number_bytes(true, false)?;
        self.set_transfer_started();
        let number = self.get_string(value);
        Ok(TransferAction::Number(number))
    }

    fn transfer_string(&mut self) -> (result: Result<TransferAction, Stop>)
        requires
            old(self).scanner.wf(),
            old(self)@.can_peek(),
            !old(self)@.expects_member_name,
        ensures
            old(self).moved_to(*final(self), old(self)@.transfer_string().0),
            old(self)@.transfer_string().1.is_action(result),
    {
        self.start_expected_value_type(ValueType::String, false)?;
        self.set_transfer_started();
        self.scanner.begin_value();
        self.activity = Activity::TransferringString;
        Ok(TransferAction::BeginString)
    }

    fn transfer_begin(&mut self, container: StackValue) -> (result: Result<TransferAction, Stop>)
        requires
            old(self).scanner.wf(),
            old(self)@.can_peek(),
            !old(self)@.expects_member_name,
        ensures
            old(self).moved_to(*final(self), old(self)@.transfer_begin(container).0),
            old(self)@.transfer_begin(container).1.is_action(result),
    {
        self.on_container_start(container)?;
        self.set_transfer_started();
        match container {
            StackValue::Array => Ok(TransferAction::BeginArray),
            StackValue::Object => Ok(TransferAction::BeginObject),
        }
    }

    fn transfer_end(&mut self) -> (result: Result<TransferAction, Stop>)
        requires
            old(self).scanner.wf(),
            old(self)@.can_peek(),
            old(self)@.stack.len() > 0,
        ensures
            old(self).moved_to(*final(self), old(self)@.transfer_end().0),
            old(self)@.transfer_end().1.is_action(result),
    {
        let is_in_array = self.is_in_array();
        self.end_innermost()?;
        if is_in_array {
            Ok(TransferAction::EndArray)
        } else {
            Ok(TransferAction::EndObject)
        }
    }

    /// Transfers the start of the next value.
    fn transfer_value(&mut self) -> (result: Result<TransferAction, Stop>)
        requires
            old(self).scanner.wf(),
            old(self)@.can_peek(),
            !old(self)@.expects_member_name,
        ensures
            old(self).moved_to(*final(self), old(self)@.transfer_value().0),
            old(self)@.transfer_value().1.is_action(result),
    {
        proof {
            self@.lemma_peek_value();
        }
        match self.peek_value()? {
            ValueType::Array => self.transfer_begin(StackValue::Array),
            ValueType::Object => self.transfer_begin(StackValue::Object),
            ValueType::String => self.transfer_string(),
            ValueType::Number => self.transfer_number(),
            ValueType::Boolean => {
                let value = self.read_bool()?;
                self.set_transfer_started();
                Ok(TransferAction::Bool(value))
            },
            ValueType::Null => {
                self.read_null()?;
                self.set_transfer_started();
                Ok(TransferAction::Null)
            },
        }
    }

    /// Transfers the next token.
    fn transfer_token(&mut self, transfer: Transfer) -> (result: Result<TransferAction, Stop>)
        requires
            old(self).scanner.wf(),
            old(self)@.can_transfer(transfer@),
            old(self)@.doing is Idle,
        ensures
            old(self).moved_to(*final(self), old(self)@.transfer_token(transfer@).0),
            old(self)@.transfer_token(transfer@).1.is_action(result),
    {
        if transfer.started && self.stack.len() <= transfer.base {
            self.transfer = None;
            return Ok(TransferAction::Finished);
        }
        if self.stack.len() > transfer.base && !self.expects_member_value() {
            proof {
                self@.lemma_check_next();
            }
            if !self.check_next()? {
                return self.transfer_end();
            }
            if self.expects_member_name {
                return self.transfer_name();
            }
        }
        self.transfer_value()
    }

    /// Starts or continues transferring a value.
    pub(super) fn transfer_any(&mut self) -> (result: Result<TransferAction, Stop>)
        requires
            old(self).scanner.wf(),
            old(self)@.skip_base is None,
            match old(self)@.transfer {
                Some(transfer) => old(self)@.can_transfer(transfer),
                None => old(self)@.can_peek() && !old(self)@.expects_member_name,
            },
        ensures
            old(self).moved_to(*final(self), old(self)@.transfer_any().0),
            old(self)@.transfer_any().1.is_action(result),
    {
        proof {
            reveal(ReaderModel::transfer_any);
        }
        let transfer = match self.transfer {
            Some(transfer) => transfer,
            None => {
                let transfer = Transfer { base: self.stack.len(), started: false };
                self.transfer = Some(transfer);
                transfer
            },
        };
        match self.activity {
            Activity::TransferringString => self.transfer_piece(),
            Activity::StringTransferred => {
                self.activity = Activity::Idle;
                proof {
                    self@.lemma_value_ended();
                }
                self.on_value_end();
                self.transfer_token(transfer)
            },
            Activity::ReadingName => self.transfer_name(),
            Activity::ReadingNumber(_) => self.transfer_number(),
            _ => self.transfer_token(transfer),
        }
    }
}

} // verus!
