//! What operations mean which process a whole value: skipping values and transferring them to
//! a writer.

use vstd::prelude::*;
use vstd::utf8::*;

use crate::error::{Outcome, SyntaxErrorKind, ValueType};
use crate::model::{Doing, ReaderModel, TransferProgress};
use crate::scan::{GapEnd, ScanState, StringEnd};
use crate::token::StackValue;

verus! {

/// What has to be written next while a value is transferred to a writer.
pub enum Transferred {
    BeginArray,
    EndArray,
    BeginObject,
    EndObject,
    Name(Seq<char>),
    BeginString,
    StringPiece { text: Seq<char>, last: bool },
    Number(Seq<char>),
    Bool(bool),
    Null,
    Finished,
}

/// The number of bytes from which on a piece of a string is handed out: then a further char
/// might not fit into a piece of 64 bytes.
pub const PIECE_LIMIT: usize = 60;

/// The result of an operation is not used.
pub open spec fn discard<T>(stop: (ReaderModel, Outcome<T>)) -> (ReaderModel, Outcome<()>) {
    match stop.1 {
        Outcome::Ready(_) => (stop.0, Outcome::Ready(())),
        stopped => (stop.0, stopped.stopped()),
    }
}

/// The result of an operation which completed is replaced.
pub open spec fn replace<T, U>(stop: (ReaderModel, Outcome<T>), result: U) -> (
    ReaderModel,
    Outcome<U>,
) {
    match stop.1 {
        Outcome::Ready(_) => (stop.0, Outcome::Ready(result)),
        stopped => (stop.0, stopped.stopped()),
    }
}

impl ScanState {
    /// Reading string characters until a piece is complete: at the closing double quote, or
    /// (without an end) when the piece is long enough.
    pub open spec fn read_piece(self) -> (ScanState, Option<StringEnd>)
        decreases self.pending.bytes.len(),
    {
        if self.value->0.len() > PIECE_LIMIT {
            (self, None)
        } else {
            let (next, end) = self.string_step();
            match end {
                Some(end) => (next, Some(end)),
                None => if next.pending.bytes.len() < self.pending.bytes.len() {
                    next.read_piece()
                } else {
                    (next, Some(StringEnd::NeedsInput))
                },
            }
        }
    }

    /// What holds at the end of a piece.
    pub proof fn lemma_read_piece(self)
        requires
            self.value is Some,
            self.value->0.len() <= 64,
        ensures
            ({
                let (next, end) = self.read_piece();
                &&& next.pending.bytes.len() <= self.pending.bytes.len()
                &&& next.total() <= self.total()
                &&& next.spot.byte_pos >= self.spot.byte_pos
                &&& next.pending.eof == self.pending.eof
                &&& next.gap == self.gap
                &&& self.sound() ==> next.sound()
                &&& next.value is Some
                &&& next.value->0.len() <= 64
                &&& !(end matches Some(StringEnd::Rejected(_))) ==> next.total() == self.total()
                &&& self.has_valid_value() ==> next.has_valid_value()
                &&& end == Some(StringEnd::Quote) ==> next.pending.ahead(0)
                    == crate::lookahead::Ahead::Byte(crate::ascii::QUOTE)
                &&& end == Some(StringEnd::NeedsInput) ==> {
                    &&& !self.pending.eof
                    &&& next.pending.bytes.len() <= 11
                }
            }),
        decreases self.pending.bytes.len(),
    {
        if self.value->0.len() <= PIECE_LIMIT {
            self.lemma_string_step();
            self.pending.lemma_string_char();
            let (next, end) = self.string_step();
            if end is None {
                next.lemma_read_piece();
            }
        }
    }
}

impl ReaderModel {
    // ---- Skipping ----

    /// Skips the start of an array or object, or another value completely, of the given type.
    pub open spec fn skip_typed(self, value_type: ValueType) -> (ReaderModel, Outcome<()>) {
        match value_type {
            ValueType::Array => self.begin_container(StackValue::Array),
            ValueType::Object => self.begin_container(StackValue::Object),
            ValueType::String => discard(self.read_string(false)),
            ValueType::Number => discard(self.read_number(false)),
            ValueType::Boolean => discard(self.read_bool()),
            ValueType::Null => self.read_null(),
        }
    }

    /// Skips the start of an array or object, or another value completely.
    pub open spec fn skip_item(self) -> (ReaderModel, Outcome<()>) {
        match self.doing {
            Doing::ReadingString => discard(self.read_string(false)),
            Doing::ReadingNumber(_) => discard(self.read_number(false)),
            _ => {
                let (next, outcome) = self.peek_value();
                match outcome {
                    Outcome::Ready(value_type) => next.skip_typed(value_type),
                    stopped => (next, stopped.stopped()),
                }
            },
        }
    }

    /// Skips the next element or the end of an array or object.
    pub open spec fn skip_element(self) -> (ReaderModel, Outcome<()>) {
        let (next, outcome) = self.check_next();
        match outcome {
            Outcome::Ready(true) => if next.expects_member_name {
                next.pass_name()
            } else {
                next.skip_item()
            },
            Outcome::Ready(false) => next.end_container(next.stack.last()),
            stopped => (next, stopped.stopped()),
        }
    }

    /// One step of skipping the value at the given nesting depth.
    pub open spec fn skip_step(self, base: nat) -> (ReaderModel, Outcome<()>) {
        if self.doing is ReadingName {
            self.pass_name()
        } else if self.doing is Idle && self.stack.len() > base && !self.expects_member_value() {
            self.skip_element()
        } else {
            self.skip_item()
        }
    }

    /// Skips the rest of the value at the given nesting depth.
    pub open spec fn skip_rest(self, base: nat) -> (ReaderModel, Outcome<()>)
        decreases self.remaining(),
    {
        let (next, outcome) = self.skip_step(base);
        match outcome {
            Outcome::Ready(_) => if next.stack.len() <= base {
                (ReaderModel { skip_base: None, ..next }, Outcome::Ready(()))
            } else if next.remaining() < self.remaining() {
                next.skip_rest(base)
            } else {
                (next, Outcome::NeedsInput)
            },
            stopped => (next, stopped),
        }
    }

    /// Starts or continues skipping a value.
    pub open spec fn pass_value(self) -> (ReaderModel, Outcome<()>) {
        match self.skip_base {
            Some(base) => self.skip_rest(base),
            None => ReaderModel { skip_base: Some(self.stack.len()), ..self }.skip_rest(
                self.stack.len(),
            ),
        }
    }

    /// One step of skipping to the top-level; the result tells whether it has been reached.
    pub open spec fn top_level_step(self) -> (ReaderModel, Outcome<bool>) {
        if self.doing is ReadingName && self.skip_base is None {
            replace(self.pass_name(), false)
        } else if self.skip_base is Some || self.expects_member_value() {
            replace(self.pass_value(), false)
        } else if self.stack.len() == 0 {
            (self, Outcome::Ready(true))
        } else {
            let (next, outcome) = self.check_next();
            match outcome {
                Outcome::Ready(true) => if next.expects_member_name {
                    replace(next.pass_name(), false)
                } else {
                    replace(next.pass_value(), false)
                },
                Outcome::Ready(false) => replace(next.end_container(next.stack.last()), false),
                stopped => (next, stopped),
            }
        }
    }

    /// Skips all remaining elements of the started arrays and objects, and their ends.
    pub open spec fn pass_to_top_level(self) -> (ReaderModel, Outcome<()>)
        decreases self.remaining(),
    {
        let (next, outcome) = self.top_level_step();
        match outcome {
            Outcome::Ready(true) => (next, Outcome::Ready(())),
            Outcome::Ready(false) => if next.remaining() < self.remaining() {
                next.pass_to_top_level()
            } else {
                (next, Outcome::NeedsInput)
            },
            stopped => (next, stopped.stopped()),
        }
    }

    // ---- Transferring ----

    /// The start of the value which is transferred has been consumed.
    pub open spec fn transfer_started(self) -> ReaderModel {
        ReaderModel {
            transfer: match self.transfer {
                Some(transfer) => Some(TransferProgress { started: true, ..transfer }),
                None => None,
            },
            ..self
        }
    }

    /// Continues a string value which is transferred in pieces.
    pub open spec fn transfer_piece(self) -> (ReaderModel, Outcome<Transferred>) {
        let (scan, end) = self.scan.read_piece();
        let next = ReaderModel { scan, ..self };
        match end {
            None => (
                next.reading(Doing::TransferringString, true),
                Outcome::Ready(Transferred::StringPiece { text: next.text(), last: false }),
            ),
            Some(StringEnd::Quote) => (
                ReaderModel { doing: Doing::StringTransferred, ..next.string_closed() },
                Outcome::Ready(Transferred::StringPiece { text: next.text(), last: true }),
            ),
            Some(StringEnd::NeedsInput) => (next, Outcome::NeedsInput),
            Some(StringEnd::Rejected(rejection)) => next.rejected(rejection),
        }
    }

    pub open spec fn transfer_name(self) -> (ReaderModel, Outcome<Transferred>) {
        let (next, outcome) = self.read_name(true);
        match outcome {
            Outcome::Ready(name) => (next, Outcome::Ready(Transferred::Name(name))),
            stopped => (next, stopped.stopped()),
        }
    }

    pub open spec fn transfer_number(self) -> (ReaderModel, Outcome<Transferred>) {
        let (next, outcome) = self.read_number(true);
        match outcome {
            Outcome::Ready(number) => (
                next.transfer_started(),
                Outcome::Ready(Transferred::Number(number)),
            ),
            stopped => (next, stopped.stopped()),
        }
    }

    pub open spec fn transfer_string(self) -> (ReaderModel, Outcome<Transferred>) {
        let (next, outcome) = self.start_value(ValueType::String, false);
        match outcome {
            Outcome::Ready(_) => (
                next.transfer_started().reading(Doing::TransferringString, true),
                Outcome::Ready(Transferred::BeginString),
            ),
            stopped => (next, stopped.stopped()),
        }
    }

    pub open spec fn transfer_bool(self) -> (ReaderModel, Outcome<Transferred>) {
        let (next, outcome) = self.read_bool();
        match outcome {
            Outcome::Ready(value) => (
                next.transfer_started(),
                Outcome::Ready(Transferred::Bool(value)),
            ),
            stopped => (next, stopped.stopped()),
        }
    }

    pub open spec fn transfer_null(self) -> (ReaderModel, Outcome<Transferred>) {
        let (next, outcome) = self.read_null();
        match outcome {
            Outcome::Ready(_) => (next.transfer_started(), Outcome::Ready(Transferred::Null)),
            stopped => (next, stopped.stopped()),
        }
    }

    pub open spec fn transfer_begin(self, container: StackValue) -> (
        ReaderModel,
        Outcome<Transferred>,
    ) {
        let (next, outcome) = self.begin_container(container);
        match outcome {
            Outcome::Ready(_) => (
                next.transfer_started(),
                Outcome::Ready(
                    match container {
                        StackValue::Array => Transferred::BeginArray,
                        StackValue::Object => Transferred::BeginObject,
                    },
                ),
            ),
            stopped => (next, stopped.stopped()),
        }
    }

    pub open spec fn transfer_end(self) -> (ReaderModel, Outcome<Transferred>) {
        let end = match self.stack.last() {
            StackValue::Array => Transferred::EndArray,
            StackValue::Object => Transferred::EndObject,
        };
        replace(self.end_container(self.stack.last()), end)
    }

    /// Transfers the start of the next value, which has the given type.
    pub open spec fn transfer_typed(self, value_type: ValueType) -> (
        ReaderModel,
        Outcome<Transferred>,
    ) {
        match value_type {
            ValueType::Array => self.transfer_begin(StackValue::Array),
            ValueType::Object => self.transfer_begin(StackValue::Object),
            ValueType::String => self.transfer_string(),
            ValueType::Number => self.transfer_number(),
            ValueType::Boolean => self.transfer_bool(),
            ValueType::Null => self.transfer_null(),
        }
    }

    /// Transfers the start of the next value.
    pub open spec fn transfer_value(self) -> (ReaderModel, Outcome<Transferred>) {
        let (next, outcome) = self.peek_value();
        match outcome {
            Outcome::Ready(value_type) => next.transfer_typed(value_type),
            stopped => (next, stopped.stopped()),
        }
    }

    /// Transfers the next token.
    pub open spec fn transfer_token(self, transfer: TransferProgress) -> (
        ReaderModel,
        Outcome<Transferred>,
    ) {
        if transfer.started && self.stack.len() <= transfer.base {
            (ReaderModel { transfer: None, ..self }, Outcome::Ready(Transferred::Finished))
        } else if self.stack.len() > transfer.base && !self.expects_member_value() {
            let (next, outcome) = self.check_next();
            match outcome {
                Outcome::Ready(true) => if next.expects_member_name {
                    next.transfer_name()
                } else {
                    next.transfer_value()
                },
                Outcome::Ready(false) => next.transfer_end(),
                stopped => (next, stopped.stopped()),
            }
        } else {
            self.transfer_value()
        }
    }

    /// One step of transferring a value.
    pub open spec fn transfer_step(self, transfer: TransferProgress) -> (
        ReaderModel,
        Outcome<Transferred>,
    ) {
        match self.doing {
            Doing::TransferringString => self.transfer_piece(),
            Doing::StringTransferred => ReaderModel {
                doing: Doing::Idle,
                ..self
            }.value_ended().transfer_token(transfer),
            Doing::ReadingName => self.transfer_name(),
            Doing::ReadingNumber(_) => self.transfer_number(),
            _ => self.transfer_token(transfer),
        }
    }

    /// Starts or continues transferring a value.
    #[verifier::opaque]
    pub open spec fn transfer_any(self) -> (ReaderModel, Outcome<Transferred>) {
        match self.transfer {
            Some(transfer) => self.transfer_step(transfer),
            None => {
                let transfer = TransferProgress { base: self.stack.len(), started: false };
                ReaderModel { transfer: Some(transfer), ..self }.transfer_step(transfer)
            },
        }
    }

    // ---- Trailing whitespace ----

    /// Consumes whitespace and comments up to the end of the data.
    pub open spec fn pass_trailing_whitespace(self) -> (ReaderModel, Outcome<()>) {
        let (scan, end) = self.scan.skip_gap(self.settings.allow_comments);
        let next = ReaderModel { scan, ..self };
        match end {
            GapEnd::Byte(_) => next.malformed(SyntaxErrorKind::TrailingData),
            GapEnd::Eof => (next, Outcome::Ready(())),
            GapEnd::NeedsInput => (next, Outcome::NeedsInput),
            GapEnd::Rejected(rejection) => next.rejected(rejection),
        }
    }

    // ---- Validity ----

    /// Whether the reader can start or continue skipping the value at a nesting depth.
    pub open spec fn can_skip(self, base: nat) -> bool {
        &&& self.can_resume()
        &&& self.skip_base == Some(base)
        &&& self.transfer is None
        &&& match self.doing {
            Doing::Idle => self.stack.len() == base ==> !self.expects_member_name,
            Doing::ReadingName => self.stack.len() > base,
            Doing::ReadingString => true,
            Doing::ReadingNumber(_) => true,
            _ => false,
        }
    }

    pub proof fn lemma_skip_item(self)
        requires
            self.can_resume(),
            !self.expects_member_name,
            self.doing is Idle || self.doing is ReadingString || self.doing is ReadingNumber,
        ensures
            self.leads_to(self.skip_item()),
            self.skip_item().1 is NeedsInput ==> {
                let next = self.skip_item().0;
                &&& self.is_value_pause(next, false)
                &&& next.doing is Idle || next.doing is ReadingString || next.doing
                    is ReadingNumber
            },
            self.skip_item().1 is Ready ==> {
                let next = self.skip_item().0;
                &&& next.can_peek()
                &&& next.at_token()
                &&& next.remaining() < self.remaining()
                &&& next.skip_base == self.skip_base
                &&& next.transfer == self.transfer
                &&& next.ongoing == self.ongoing
                &&& next.stack == self.stack && next.expects_member_name == next.is_in_object()
                    && !next.is_empty || next.stack == self.stack.push(next.stack.last())
            },
    {
        if self.doing is ReadingString {
            self.lemma_read_string(false);
        } else if self.doing is ReadingNumber {
            self.lemma_read_number(false);
        } else {
            self.lemma_peek_value();
            let (next, outcome) = self.peek_value();
            if let Outcome::Ready(value_type) = outcome {
                match value_type {
                    ValueType::Array => next.lemma_begin_container(StackValue::Array),
                    ValueType::Object => next.lemma_begin_container(StackValue::Object),
                    ValueType::String => next.lemma_read_string(false),
                    ValueType::Number => next.lemma_read_number(false),
                    ValueType::Boolean => next.lemma_read_bool(),
                    ValueType::Null => next.lemma_read_null(),
                }
            }
        }
    }

    /// What holds of a step of a skip at a nesting depth.
    pub open spec fn is_skip_step(self, stop: (ReaderModel, Outcome<()>), base: nat) -> bool {
        let (next, outcome) = stop;
        &&& self.leads_to(stop)
        &&& outcome is NeedsInput ==> {
            &&& next.can_skip(base)
            &&& next.stack.take(base as int) == self.stack.take(base as int)
        }
        &&& outcome is Ready ==> {
            &&& next.can_peek()
            &&& next.at_token()
            &&& next.remaining() < self.remaining()
            &&& next.skip_base == self.skip_base
            &&& next.transfer is None
            &&& next.ongoing == self.ongoing
            &&& next.stack.len() >= base
            &&& next.stack.take(base as int) == self.stack.take(base as int)
            &&& next.stack.len() == base ==> {
                &&& next.expects_member_name == next.is_in_object()
                &&& !next.is_empty
            }
        }
    }

    pub proof fn lemma_pass_name(self)
        requires
            self.can_resume(),
            self.doing is Idle && self.expects_member_name || self.doing is ReadingName,
        ensures
            self.leads_to(self.pass_name()),
            self.pass_name().1 is NeedsInput ==> {
                let next = self.pass_name().0;
                &&& next.can_resume()
                &&& next.stack == self.stack
                &&& next.skip_base == self.skip_base
                &&& next.transfer == self.transfer
                &&& next.doing is Idle && next.expects_member_name || next.doing is ReadingName
            },
            self.pass_name().1 is Ready ==> self.is_name_end(self.pass_name().0),
    {
        if self.doing is ReadingName {
            self.lemma_read_name(true);
        } else {
            self.lemma_read_name(self.path is Some);
        }
    }

    pub proof fn lemma_skip_element(self, base: nat)
        requires
            self.can_skip(base),
            self.doing is Idle,
            self.stack.len() > base,
            !self.expects_member_value(),
        ensures
            self.is_skip_step(self.skip_element(), base),
    {
        self.lemma_check_next();
        let (next, outcome) = self.check_next();
        if let Outcome::Ready(found) = outcome {
            if found {
                if next.expects_member_name {
                    next.lemma_pass_name();
                } else {
                    next.lemma_skip_item();
                    let (last, result) = next.skip_item();
                    if result is Ready {
                        assert(last.stack.take(base as int) =~= self.stack.take(base as int));
                    }
                }
            } else {
                next.lemma_end_container(next.stack.last());
                let (last, result) = next.end_container(next.stack.last());
                if result is Ready {
                    assert(last.stack.take(base as int) =~= self.stack.take(base as int));
                }
            }
        }
    }

    pub proof fn lemma_skip_step(self, base: nat)
        requires
            self.can_skip(base),
        ensures
            self.is_skip_step(self.skip_step(base), base),
    {
        if self.doing is ReadingName {
            self.lemma_pass_name();
        } else if self.doing is Idle && self.stack.len() > base && !self.expects_member_value() {
            self.lemma_skip_element(base);
        } else {
            self.lemma_skip_item();
            let (next, outcome) = self.skip_item();
            if outcome is Ready {
                assert(next.stack.take(base as int) =~= self.stack.take(base as int));
            }
        }
    }

    /// What holds of skipping a value at a nesting depth.
    pub open spec fn is_skip(self, stop: (ReaderModel, Outcome<()>), base: nat) -> bool {
        let (next, outcome) = stop;
        &&& self.leads_to(stop)
        &&& outcome is NeedsInput ==> {
            &&& next.can_skip(base)
            &&& next.stack.take(base as int) == self.stack.take(base as int)
        }
        &&& outcome is Ready ==> {
            &&& next.can_peek()
            &&& next.at_token()
            &&& next.remaining() < self.remaining()
            &&& next.skip_base is None
            &&& next.transfer is None
            &&& next.ongoing == self.ongoing
            &&& next.stack == self.stack.take(base as int)
            &&& next.expects_member_name == next.is_in_object()
            &&& !next.is_empty
        }
    }

    pub proof fn lemma_skip_rest(self, base: nat)
        requires
            self.can_skip(base),
        ensures
            self.is_skip(self.skip_rest(base), base),
        decreases self.remaining(),
    {
        self.lemma_skip_step(base);
        let (next, outcome) = self.skip_step(base);
        if outcome is Ready {
            if next.stack.len() > base {
                next.lemma_skip_rest(base);
            } else {
                assert(next.stack.take(base as int) =~= next.stack);
            }
        }
    }

    /// Whether the reader can start or continue skipping a value.
    pub open spec fn can_pass_value(self) -> bool {
        match self.skip_base {
            Some(base) => self.can_skip(base),
            None => {
                &&& self.can_peek()
                &&& !self.expects_member_name
                &&& self.transfer is None
            },
        }
    }

    /// The nesting depth of the value which is skipped or would be skipped next.
    pub open spec fn skip_depth(self) -> nat {
        match self.skip_base {
            Some(base) => base,
            None => self.stack.len(),
        }
    }

    pub proof fn lemma_pass_value(self)
        requires
            self.can_pass_value(),
        ensures
            self.is_skip(self.pass_value(), self.skip_depth()),
    {
        match self.skip_base {
            Some(base) => self.lemma_skip_rest(base),
            None => {
                let base = self.stack.len();
                ReaderModel { skip_base: Some(base), ..self }.lemma_skip_rest(base);
            },
        }
    }

    /// Whether the reader can start or continue skipping to the top-level.
    pub open spec fn can_pass_to_top_level(self) -> bool {
        &&& self.can_resume()
        &&& self.transfer is None
        &&& match self.skip_base {
            Some(base) => self.can_skip(base),
            None => {
                &&& self.doing is Idle || self.doing is ReadingName
                &&& self.stack.len() == 0 ==> {
                    &&& !self.colon_read
                    &&& self.comma is None
                    &&& self.scan.gap is Outside
                }
            },
        }
    }

    pub proof fn lemma_top_level_step(self)
        requires
            self.can_pass_to_top_level(),
        ensures
            self.leads_to(self.top_level_step()),
            self.top_level_step().1 is NeedsInput ==> {
                let next = self.top_level_step().0;
                &&& next.can_pass_to_top_level()
            },
            self.top_level_step().1 matches Outcome::Ready(reached) ==> {
                let next = self.top_level_step().0;
                &&& next.ongoing == self.ongoing
                &&& reached ==> next == self && self.stack.len() == 0 && self.doing is Idle
                    && self.skip_base is None
                &&& !reached ==> {
                    &&& next.can_pass_to_top_level()
                    &&& next.at_token()
                    &&& next.remaining() < self.remaining()
                }
            },
    {
        if self.doing is ReadingName && self.skip_base is None {
            self.lemma_pass_name();
        } else if self.skip_base is Some || self.expects_member_value() {
            self.lemma_pass_value();
        } else if self.stack.len() > 0 {
            self.lemma_check_next();
            let (next, outcome) = self.check_next();
            if let Outcome::Ready(found) = outcome {
                if !found {
                    next.lemma_end_container(next.stack.last());
                } else if next.expects_member_name {
                    next.lemma_pass_name();
                } else {
                    next.lemma_pass_value();
                }
            }
        }
    }

    pub proof fn lemma_pass_to_top_level(self)
        requires
            self.can_pass_to_top_level(),
        ensures
            self.leads_to(self.pass_to_top_level()),
            self.pass_to_top_level().1 is NeedsInput
                ==> self.pass_to_top_level().0.can_pass_to_top_level(),
            self.pass_to_top_level().1 is Ready ==> {
                let next = self.pass_to_top_level().0;
                &&& next.can_peek()
                &&& next.stack.len() == 0
                &&& next.skip_base is None
                &&& next.transfer is None
                &&& next.ongoing == self.ongoing
                &&& !next.colon_read
                &&& next.comma is None
                &&& next.scan.gap is Outside
            },
        decreases self.remaining(),
    {
        self.lemma_top_level_step();
        let (next, outcome) = self.top_level_step();
        if outcome == Outcome::Ready(false) {
            next.lemma_pass_to_top_level();
        }
    }

    /// Whether the reader can start or continue transferring a value.
    pub open spec fn can_transfer(self, transfer: TransferProgress) -> bool {
        &&& self.can_resume()
        &&& self.transfer == Some(transfer)
        &&& self.skip_base is None
        &&& match self.doing {
            Doing::Idle => {
                &&& self.stack.len() == transfer.base && !transfer.started
                    ==> !self.expects_member_name
                &&& self.stack.len() == transfer.base && transfer.started ==> self.at_token()
                &&& self.stack.len() > transfer.base ==> transfer.started
            },
            Doing::ReadingName => {
                &&& self.stack.len() > transfer.base
                &&& transfer.started
                &&& self.scan.value is Some
            },
            Doing::ReadingString => false,
            Doing::ReadingNumber(_) => self.scan.value is Some,
            Doing::TransferringString => transfer.started && self.scan.value->0.len() <= 64,
            Doing::StringTransferred => transfer.started,
        }
    }

    /// What holds of a step of a transfer.
    pub open spec fn is_transfer_step(
        self,
        stop: (ReaderModel, Outcome<Transferred>),
        transfer: TransferProgress,
    ) -> bool {
        let (next, outcome) = stop;
        &&& self.leads_to(stop)
        &&& outcome is NeedsInput ==> {
            &&& next.transfer matches Some(progress)
            &&& next.can_transfer(progress)
            &&& progress.base == transfer.base
            &&& progress.started == transfer.started
            &&& next.stack.take(transfer.base as int) == self.stack.take(transfer.base as int)
        }
        &&& outcome matches Outcome::Ready(transferred) ==> {
            &&& next.ongoing == self.ongoing
            &&& next.skip_base is None
            &&& next.can_resume()
            &&& next.stack.take(transfer.base as int) == self.stack.take(transfer.base as int)
            &&& if transferred is Finished {
                &&& next.at_token()
                &&& next.transfer is None
                &&& next.stack.len() == transfer.base
            } else {
                &&& next.transfer == Some(TransferProgress { started: true, ..transfer })
                &&& next.can_transfer(next.transfer->0)
            }
        }
    }

    pub proof fn lemma_transfer_piece(self, transfer: TransferProgress)
        requires
            self.can_transfer(transfer),
            self.doing is TransferringString,
        ensures
            self.is_transfer_step(self.transfer_piece(), transfer),
    {
        self.scan.lemma_read_piece();
    }

    pub proof fn lemma_transfer_name(self, transfer: TransferProgress)
        requires
            self.can_transfer(transfer),
            transfer.started,
            self.stack.len() > transfer.base,
            self.doing is ReadingName || self.doing is Idle && self.expects_member_name,
        ensures
            self.is_transfer_step(self.transfer_name(), transfer),
    {
        self.lemma_read_name(true);
    }

    pub proof fn lemma_transfer_value(self, transfer: TransferProgress)
        requires
            self.can_transfer(transfer),
            self.doing is Idle,
            !self.expects_member_name,
            self.stack.len() > transfer.base || !transfer.started,
        ensures
            self.is_transfer_step(self.transfer_value(), transfer),
    {
        self.lemma_peek_value();
        let (next, outcome) = self.peek_value();
        if let Outcome::Ready(value_type) = outcome {
            match value_type {
                ValueType::Array => next.lemma_begin_container(StackValue::Array),
                ValueType::Object => next.lemma_begin_container(StackValue::Object),
                ValueType::String => next.lemma_start_value(ValueType::String, false),
                ValueType::Number => next.lemma_read_number(true),
                ValueType::Boolean => next.lemma_read_bool(),
                ValueType::Null => next.lemma_read_null(),
            }
            let (last, _) = self.transfer_value();
            if self.transfer_value().1 is Ready {
                assert(last.stack.take(transfer.base as int) =~= self.stack.take(
                    transfer.base as int,
                ));
            }
        }
    }

    pub proof fn lemma_transfer_token(self, transfer: TransferProgress)
        requires
            self.can_transfer(transfer),
            self.doing is Idle,
        ensures
            self.is_transfer_step(self.transfer_token(transfer), transfer),
    {
        if transfer.started && self.stack.len() <= transfer.base {
        } else if self.stack.len() > transfer.base && !self.expects_member_value() {
            self.lemma_check_next();
            let (next, outcome) = self.check_next();
            if let Outcome::Ready(found) = outcome {
                if !found {
                    next.lemma_end_container(next.stack.last());
                    let (last, result) = next.end_container(next.stack.last());
                    if result is Ready {
                        assert(last.stack.take(transfer.base as int) =~= self.stack.take(
                            transfer.base as int,
                        ));
                    }
                } else if next.expects_member_name {
                    next.lemma_transfer_name(transfer);
                } else {
                    next.lemma_transfer_value(transfer);
                }
            }
        } else {
            self.lemma_transfer_value(transfer);
        }
    }

    pub proof fn lemma_transfer_step(self, transfer: TransferProgress)
        requires
            self.can_transfer(transfer),
        ensures
            self.is_transfer_step(self.transfer_step(transfer), transfer),
    {
        match self.doing {
            Doing::TransferringString => self.lemma_transfer_piece(transfer),
            Doing::StringTransferred => {
                let idle = ReaderModel { doing: Doing::Idle, ..self };
                idle.lemma_value_ended();
                idle.value_ended().lemma_transfer_token(transfer);
            },
            Doing::ReadingName => self.lemma_transfer_name(transfer),
            Doing::ReadingNumber(_) => self.lemma_read_number(true),
            _ => self.lemma_transfer_token(transfer),
        }
    }

    pub proof fn lemma_pass_trailing_whitespace(self)
        requires
            self.consistent(),
        ensures
            self.leads_to(self.pass_trailing_whitespace()),
            !(self.pass_trailing_whitespace().1 is Failed) ==> self.pass_trailing_whitespace().0
                == (ReaderModel { scan: self.pass_trailing_whitespace().0.scan, ..self }),
            self.pass_trailing_whitespace().1 is Ready ==> self.pass_trailing_whitespace().0.scan.gap
                is Outside,
    {
        self.scan.lemma_skip_gap(self.settings.allow_comments);
    }
}

} // verus!
