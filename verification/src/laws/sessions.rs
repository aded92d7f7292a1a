//! Laws on whole sequences of calls: neither how the data is divided into pieces nor whether the
//! JSON path is tracked has an influence on them.

use vstd::prelude::*;

use crate::error::{Outcome, Problem, ValueType};
use crate::model::{Operation, ReaderModel};
use crate::position::Place;
use crate::reader::string_value::StringReading;
use crate::settings::ReaderSettings;
use crate::traversal::Transferred;
use crate::usage::Misuse;

verus! {

// ---- Calls and what they return ----

/// A call of a user.
pub enum Call {
    /// An operation of the JSON reader.
    Operation(Operation),
    /// Reading at most the given number of bytes from the string value reader.
    Read(nat),
}

/// What a call returns when it succeeds.
pub enum Value {
    Nothing,
    Type(ValueType),
    Flag(bool),
    Text(Seq<char>),
    Action(Transferred),
    Bytes(Seq<u8>),
    /// The problem which occurred before within a string value; it is reported again as text.
    PreviousError(Problem),
}

/// What a user observes of a call: its result, and the position of the JSON reader afterwards.
pub enum Answer {
    Returned(Outcome<Value>, Place),
    /// The call is not allowed; for an operation it is known why.
    Refused(Option<Misuse>),
}

impl Outcome<()> {
    pub open spec fn as_value(self) -> Outcome<Value> {
        match self {
            Outcome::Ready(_) => Outcome::Ready(Value::Nothing),
            stopped => stopped.stopped(),
        }
    }
}

impl Outcome<ValueType> {
    pub open spec fn as_value(self) -> Outcome<Value> {
        match self {
            Outcome::Ready(value_type) => Outcome::Ready(Value::Type(value_type)),
            stopped => stopped.stopped(),
        }
    }
}

impl Outcome<bool> {
    pub open spec fn as_value(self) -> Outcome<Value> {
        match self {
            Outcome::Ready(flag) => Outcome::Ready(Value::Flag(flag)),
            stopped => stopped.stopped(),
        }
    }
}

impl Outcome<Seq<char>> {
    pub open spec fn as_value(self) -> Outcome<Value> {
        match self {
            Outcome::Ready(text) => Outcome::Ready(Value::Text(text)),
            stopped => stopped.stopped(),
        }
    }
}

impl Outcome<Transferred> {
    pub open spec fn as_value(self) -> Outcome<Value> {
        match self {
            Outcome::Ready(action) => Outcome::Ready(Value::Action(action)),
            stopped => stopped.stopped(),
        }
    }
}

impl ReaderModel {
    /// What an operation leads to and returns.
    #[verifier::opaque]
    pub open spec fn called(self, operation: Operation) -> (ReaderModel, Outcome<Value>) {
        match operation {
            Operation::Peek => (self.peek().0, self.peek().1.as_value()),
            Operation::BeginArray => (self.begin_array().0, self.begin_array().1.as_value()),
            Operation::EndArray => (self.end_array().0, self.end_array().1.as_value()),
            Operation::BeginObject => (self.begin_object().0, self.begin_object().1.as_value()),
            Operation::EndObject => (self.end_object().0, self.end_object().1.as_value()),
            Operation::HasNext => (self.has_next().0, self.has_next().1.as_value()),
            Operation::NextName => (self.next_name().0, self.next_name().1.as_value()),
            Operation::NextString => (self.next_string().0, self.next_string().1.as_value()),
            Operation::NextStringReader => (
                self.next_string_reader().0,
                self.next_string_reader().1.as_value(),
            ),
            Operation::NextNumber => (self.next_number().0, self.next_number().1.as_value()),
            Operation::NextBool => (self.next_bool().0, self.next_bool().1.as_value()),
            Operation::NextNull => (self.next_null().0, self.next_null().1.as_value()),
            Operation::SkipName => (self.skip_name().0, self.skip_name().1.as_value()),
            Operation::SkipValue => (self.skip_value().0, self.skip_value().1.as_value()),
            Operation::SkipToTopLevel => (
                self.skip_to_top_level().0,
                self.skip_to_top_level().1.as_value(),
            ),
            Operation::TransferTo => (self.transfer_next().0, self.transfer_next().1.as_value()),
            Operation::ConsumeTrailingWhitespace => (
                self.consume_trailing_whitespace().0,
                self.consume_trailing_whitespace().1.as_value(),
            ),
        }
    }

    /// What holds of every operation which was called.
    proof fn lemma_called(self, operation: Operation)
        requires
            self.valid(),
            self.misuse(operation) is None,
        ensures
            self.is_call(operation, self.called(operation)),
            self.called(operation).1 matches Outcome::Ready(value) ==> {
                let ongoing = self.called(operation).0.ongoing;
                &&& ongoing is None || operation is TransferTo && ongoing == Some(
                    Operation::TransferTo,
                )
                &&& !(value is PreviousError)
            },
            operation is NextStringReader && self.called(operation).1 is Ready ==> self.called(
                operation,
            ).0.string_reader_active,
    {
        reveal(ReaderModel::called);
        self.lemma_ready(operation);
        match operation {
            Operation::Peek => self.lemma_peek(),
            Operation::BeginArray => self.lemma_begin_array(),
            Operation::EndArray => self.lemma_end_array(),
            Operation::BeginObject => self.lemma_begin_object(),
            Operation::EndObject => self.lemma_end_object(),
            Operation::HasNext => self.lemma_has_next(),
            Operation::NextName => self.lemma_next_name(),
            Operation::NextString => self.lemma_next_string(),
            Operation::NextStringReader => self.lemma_next_string_reader(),
            Operation::NextNumber => self.lemma_next_number(),
            Operation::NextBool => self.lemma_next_bool(),
            Operation::NextNull => self.lemma_next_null(),
            Operation::SkipName => self.lemma_skip_name(),
            Operation::SkipValue => self.lemma_skip_value(),
            Operation::SkipToTopLevel => self.lemma_skip_to_top_level(),
            Operation::TransferTo => self.lemma_transfer_next(),
            Operation::ConsumeTrailingWhitespace => self.lemma_consume_trailing_whitespace(),
        }
        reveal(ReaderModel::has_next);
        reveal(ReaderModel::next_name);
    }

    /// No operation depends on how the data is divided into pieces.
    proof fn lemma_called_of_pieces(self, operation: Operation, bytes: Seq<u8>, eof: bool)
        requires
            self.valid(),
            self.misuse(operation) is None,
            !self.scan.pending.eof,
            self.has_room(bytes),
        ensures
            ReaderModel::continues(
                self.called(operation),
                self.called(operation).0.extended(bytes, eof).called(operation),
                self.extended(bytes, eof).called(operation),
                bytes,
                eof,
            ),
    {
        reveal(ReaderModel::called);
        match operation {
            Operation::Peek => self.law_peek_of_pieces(bytes, eof),
            Operation::BeginArray => self.law_begin_array_of_pieces(bytes, eof),
            Operation::EndArray => self.law_end_array_of_pieces(bytes, eof),
            Operation::BeginObject => self.law_begin_object_of_pieces(bytes, eof),
            Operation::EndObject => self.law_end_object_of_pieces(bytes, eof),
            Operation::HasNext => self.law_has_next_of_pieces(bytes, eof),
            Operation::NextName => self.law_next_name_of_pieces(bytes, eof),
            Operation::NextString => self.law_next_string_of_pieces(bytes, eof),
            Operation::NextStringReader => self.law_next_string_reader_of_pieces(bytes, eof),
            Operation::NextNumber => self.law_next_number_of_pieces(bytes, eof),
            Operation::NextBool => self.law_next_bool_of_pieces(bytes, eof),
            Operation::NextNull => self.law_next_null_of_pieces(bytes, eof),
            Operation::SkipName => self.law_skip_name_of_pieces(bytes, eof),
            Operation::SkipValue => self.law_skip_value_of_pieces(bytes, eof),
            Operation::SkipToTopLevel => self.law_skip_to_top_level_of_pieces(bytes, eof),
            Operation::TransferTo => self.law_transfer_next_of_pieces(bytes, eof),
            Operation::ConsumeTrailingWhitespace => {
                self.law_consume_trailing_whitespace_of_pieces(bytes, eof);
            },
        }
    }
}

// ---- Sessions ----

/// A string value which is read in a streaming way.
pub struct StreamedString {
    /// Bytes which were read but not handed out yet.
    pub overflow: Seq<u8>,
    /// The bytes which were handed out by a read which has not completed yet.
    pub bytes: Seq<u8>,
    pub reached_end: bool,
    /// The problem which occurred, if any.
    pub problem: Option<Problem>,
}

/// A JSON reader in use, possibly with a string value reader.
pub struct Session {
    pub reader: ReaderModel,
    pub string: Option<StreamedString>,
}

/// What happens when it is tried to read data from the source. After the last delivery its end has
/// been reached.
pub enum Delivery {
    Data(Seq<u8>),
    /// Reading was interrupted; it is tried again.
    Interrupted,
}

/// Whether a source can behave this way: data which it delivers is not empty.
pub open spec fn is_source(deliveries: Seq<Delivery>) -> bool {
    forall|i: int|
        0 <= i < deliveries.len() ==> ((#[trigger] deliveries[i]) matches Delivery::Data(data)
            ==> data.len() > 0)
}

/// All data which is delivered.
pub open spec fn all_data(deliveries: Seq<Delivery>) -> Seq<u8>
    decreases deliveries.len(),
{
    if deliveries.len() == 0 {
        Seq::empty()
    } else {
        match deliveries[0] {
            Delivery::Data(data) => data + all_data(deliveries.skip(1)),
            Delivery::Interrupted => all_data(deliveries.skip(1)),
        }
    }
}

impl StreamedString {
    pub open spec fn start() -> StreamedString {
        StreamedString {
            overflow: Seq::empty(),
            bytes: Seq::empty(),
            reached_end: false,
            problem: None,
        }
    }

    /// The state while bytes are read.
    pub open spec fn reading(self, reader: ReaderModel) -> StringReading {
        StringReading {
            reader,
            overflow: self.overflow,
            reached_end: self.reached_end,
            bytes: self.bytes,
        }
    }
}

impl StringReading {
    /// The session after reading stopped.
    pub open spec fn concluded(self, outcome: Outcome<()>) -> (Session, Outcome<Value>) {
        let string = StreamedString {
            overflow: self.overflow,
            bytes: if outcome is NeedsInput {
                self.bytes
            } else {
                Seq::empty()
            },
            reached_end: self.reached_end,
            problem: match outcome {
                Outcome::Failed(problem) => Some(problem),
                _ => None,
            },
        };
        (
            Session { reader: self.reader, string: Some(string) },
            match outcome {
                Outcome::Ready(_) => Outcome::Ready(Value::Bytes(self.bytes)),
                stopped => stopped.stopped(),
            },
        )
    }
}

impl Session {
    /// A new JSON reader.
    pub open spec fn start(settings: ReaderSettings) -> Session {
        Session { reader: ReaderModel::start(settings), string: None }
    }

    /// More data is available.
    pub open spec fn extended(self, bytes: Seq<u8>, eof: bool) -> Session {
        Session { reader: self.reader.extended(bytes, eof), ..self }
    }

    pub open spec fn has_ended(self) -> bool {
        self.reader.scan.pending.eof
    }

    /// How often the end of the data can still be reached.
    pub open spec fn outstanding(self) -> nat {
        if self.has_ended() {
            0
        } else {
            1
        }
    }

    /// Whether a call is not allowed, and why.
    pub open spec fn refusal(self, call: Call) -> Option<Option<Misuse>> {
        match call {
            Call::Operation(operation) => match self.reader.misuse(operation) {
                Some(misuse) => Some(Some(misuse)),
                None => None,
            },
            Call::Read(_) => if self.string is Some {
                None
            } else {
                Some(None)
            },
        }
    }

    /// Calls a function of the JSON reader or of the string value reader, which may need more data.
    /// The string value reader cannot be used anymore when the JSON reader is used again.
    #[verifier::opaque]
    pub open spec fn step(self, call: Call) -> (Session, Outcome<Value>) {
        match call {
            Call::Operation(operation) => {
                let (reader, outcome) = self.reader.called(operation);
                let string = if operation is NextStringReader && outcome is Ready {
                    Some(StreamedString::start())
                } else {
                    None
                };
                (Session { reader, string }, outcome)
            },
            Call::Read(limit) => {
                let string = self.string->0;
                match string.problem {
                    Some(problem) => (self, Outcome::Ready(Value::PreviousError(problem))),
                    None => {
                        let (next, outcome) = string.reading(self.reader).read(limit);
                        next.concluded(outcome)
                    },
                }
            },
        }
    }

    /// Data is obtained from the source.
    pub open spec fn filled(self, deliveries: Seq<Delivery>) -> (Session, Seq<Delivery>)
        decreases deliveries.len(),
    {
        if deliveries.len() == 0 {
            (Session { reader: self.reader.received(Seq::empty()), ..self }, deliveries)
        } else {
            match deliveries[0] {
                Delivery::Data(data) => (
                    Session { reader: self.reader.received(data), ..self },
                    deliveries.skip(1),
                ),
                Delivery::Interrupted => self.filled(deliveries.skip(1)),
            }
        }
    }

    /// Performs a call, obtaining data from the source as long as the call needs it.
    pub open spec fn run(self, call: Call, deliveries: Seq<Delivery>) -> (
        Session,
        Outcome<Value>,
        Seq<Delivery>,
    )
        decreases deliveries.len(), self.outstanding(),
    {
        let (next, outcome) = self.step(call);
        if outcome is NeedsInput && !self.has_ended() {
            let (filled, rest) = next.filled(deliveries);
            if rest.len() < deliveries.len() || rest.len() == deliveries.len()
                && filled.has_ended() {
                filled.run(call, rest)
            } else {
                (next, outcome, deliveries)
            }
        } else {
            (next, outcome, deliveries)
        }
    }

    /// Performs calls one after the other, as long as they are allowed.
    pub open spec fn run_all(self, calls: Seq<Call>, deliveries: Seq<Delivery>) -> (
        Session,
        Seq<Answer>,
        Seq<Delivery>,
    )
        decreases calls.len(),
    {
        if calls.len() == 0 {
            (self, Seq::empty(), deliveries)
        } else {
            match self.refusal(calls[0]) {
                Some(misuse) => (self, seq![Answer::Refused(misuse)], deliveries),
                None => {
                    let (next, outcome, rest) = self.run(calls[0], deliveries);
                    let (last, answers, left) = next.run_all(calls.skip(1), rest);
                    let answer = Answer::Returned(outcome, next.reader.place());
                    (last, seq![answer] + answers, left)
                },
            }
        }
    }

    /// Whether a call can be performed or continued.
    pub open spec fn is_ready(self, call: Call) -> bool {
        &&& self.reader.valid()
        &&& match call {
            Call::Operation(operation) => self.reader.misuse(operation) is None,
            Call::Read(limit) => {
                &&& self.string matches Some(string)
                &&& string.problem is None ==> {
                    &&& string.bytes.len() <= limit
                    &&& string.reached_end || self.reader.string_reader_active
                }
            },
        }
    }

    /// Whether no call is in progress.
    pub open spec fn is_valid(self) -> bool {
        &&& self.reader.valid()
        &&& self.reader.ongoing is None || self.reader.ongoing == Some(Operation::TransferTo)
        &&& self.string matches Some(string) ==> {
            &&& string.bytes.len() == 0
            &&& string.problem is None ==> string.reached_end || self.reader.string_reader_active
        }
    }

    /// Whether the source can deliver the data without exceeding the maximum length of a document.
    pub open spec fn fits(self, deliveries: Seq<Delivery>) -> bool {
        &&& is_source(deliveries)
        &&& !self.has_ended() ==> self.reader.has_room(all_data(deliveries))
    }

    /// The same session if all data had been received before.
    pub open spec fn completed(self, deliveries: Seq<Delivery>) -> Session {
        if self.has_ended() {
            self
        } else {
            self.extended(all_data(deliveries), true)
        }
    }

    /// What holds of every call.
    proof fn lemma_step(self, call: Call)
        requires
            self.is_ready(call),
        ensures
            ({
                let (next, outcome) = self.step(call);
                &&& next.reader.valid()
                &&& next.has_ended() == self.has_ended()
                &&& next.reader.scan.total() + next.reader.unaccounted()
                    <= self.reader.scan.total() + self.reader.unaccounted()
                &&& outcome is NeedsInput ==> {
                    &&& !self.has_ended()
                    &&& next.is_ready(call)
                    &&& self.string_is_fresh(call) ==> next.string_is_fresh(call)
                }
                &&& !(outcome is NeedsInput) && self.string_is_fresh(call) ==> next.is_valid()
            }),
    {
        reveal(Session::step);
        match call {
            Call::Operation(operation) => {
                self.reader.lemma_called(operation);
            },
            Call::Read(limit) => {
                let string = self.string->0;
                if string.problem is None {
                    let reading = string.reading(self.reader);
                    if !string.reached_end && string.bytes.len() < limit {
                        reading.lemma_given(reading.overflow, limit);
                        reading.given(reading.overflow, limit).lemma_read_chars(limit);
                    }
                }
            },
        }
    }

    /// Whether the string value reader which is used by the call has no previous problem with
    /// bytes left, and the JSON reader has no operation in progress.
    spec fn string_is_fresh(self, call: Call) -> bool {
        call is Read ==> {
            &&& self.reader.ongoing is None || self.reader.ongoing == Some(Operation::TransferTo)
            &&& self.string->0.problem is Some ==> self.string->0.bytes.len() == 0
        }
    }

    /// No call depends on how the data is divided into pieces.
    proof fn lemma_step_of_pieces(self, call: Call, bytes: Seq<u8>)
        requires
            self.is_ready(call),
            !self.has_ended(),
            self.reader.has_room(bytes),
        ensures
            ({
                let (next, outcome) = self.step(call);
                let whole = self.extended(bytes, true).step(call);
                if outcome is NeedsInput {
                    next.extended(bytes, true).step(call) == whole
                } else {
                    whole == (next.extended(bytes, true), outcome)
                }
            }),
    {
        reveal(Session::step);
        match call {
            Call::Operation(operation) => {
                self.reader.lemma_called_of_pieces(operation, bytes, true);
            },
            Call::Read(limit) => {
                let string = self.string->0;
                if string.problem is None {
                    let reading = string.reading(self.reader);
                    reading.law_read_of_pieces(limit, bytes, true);
                    let (next, outcome) = reading.read(limit);
                    assert(string.reading(self.reader.extended(bytes, true)) == reading.extended(
                        bytes,
                        true,
                    ));
                    if outcome is NeedsInput {
                        let paused = self.step(call).0;
                        assert(paused.string->0.reading(paused.reader.extended(bytes, true))
                            == next.extended(bytes, true));
                    }
                }
            },
        }
    }

    /// What is obtained from the source is the next part of the data.
    proof fn lemma_filled(self, deliveries: Seq<Delivery>)
        requires
            self.reader.valid(),
            !self.has_ended(),
            self.fits(deliveries),
        ensures
            ({
                let (filled, rest) = self.filled(deliveries);
                &&& filled.reader.valid()
                &&& filled.fits(rest)
                &&& filled.completed(rest) == self.completed(deliveries)
                &&& rest.len() < deliveries.len() || rest.len() == deliveries.len()
                    && filled.has_ended()
                &&& forall|call: Call| #[trigger] self.is_ready(call) ==> filled.is_ready(call)
                &&& filled.string == self.string
                &&& filled.reader.ongoing == self.reader.ongoing
                &&& filled.reader.place() == self.reader.place()
            }),
        decreases deliveries.len(),
    {
        if deliveries.len() == 0 {
            self.reader.lemma_extended(Seq::empty(), true);
        } else {
            let rest = deliveries.skip(1);
            assert(is_source(rest)) by {
                assert forall|i: int| 0 <= i < rest.len() implies ((#[trigger] rest[i])
                    matches Delivery::Data(data) ==> data.len() > 0) by {
                    assert(rest[i] == deliveries[i + 1]);
                }
            }
            match deliveries[0] {
                Delivery::Data(data) => {
                    self.reader.lemma_extended(data, false);
                    let bytes = self.reader.scan.pending.bytes;
                    assert(bytes + data + all_data(rest) =~= bytes + (data + all_data(rest)));
                },
                Delivery::Interrupted => self.lemma_filled(rest),
            }
        }
    }

    /// A call for which data is obtained piece by piece is like one for which all data is
    /// available.
    proof fn lemma_run(self, call: Call, deliveries: Seq<Delivery>)
        requires
            self.is_ready(call),
            self.fits(deliveries),
            self.string_is_fresh(call),
        ensures
            ({
                let (next, outcome, rest) = self.run(call, deliveries);
                &&& self.completed(deliveries).step(call) == (next.completed(rest), outcome)
                &&& !(outcome is NeedsInput)
                &&& next.is_valid()
                &&& next.fits(rest)
            }),
        decreases deliveries.len(), self.outstanding(),
    {
        self.lemma_step(call);
        let (next, outcome) = self.step(call);
        if !self.has_ended() {
            self.lemma_step_of_pieces(call, all_data(deliveries));
            if outcome is NeedsInput {
                next.lemma_filled(deliveries);
                let (filled, rest) = next.filled(deliveries);
                filled.lemma_run(call, rest);
            }
        }
    }

    /// Calls for which data is obtained piece by piece are like calls for which all data is
    /// available.
    proof fn lemma_run_all(self, calls: Seq<Call>, deliveries: Seq<Delivery>)
        requires
            self.is_valid(),
            self.fits(deliveries),
        ensures
            ({
                let (last, answers, left) = self.run_all(calls, deliveries);
                self.completed(deliveries).run_all(calls, Seq::empty()) == (
                    last.completed(left),
                    answers,
                    Seq::<Delivery>::empty(),
                )
            }),
        decreases calls.len(),
    {
        if calls.len() > 0 {
            let call = calls[0];
            let whole = self.completed(deliveries);
            assert(whole.refusal(call) == self.refusal(call));
            if self.refusal(call) is None {
                self.lemma_run(call, deliveries);
                let (next, outcome, rest) = self.run(call, deliveries);
                let none = Seq::<Delivery>::empty();
                assert(whole.run(call, none) == (next.completed(rest), outcome, none));
                next.lemma_run_all(calls.skip(1), rest);
            }
        }
    }

    /// How the source divides the data into pieces, and how often reading from it is interrupted,
    /// has no influence on any sequence of calls: the same calls are allowed, they return the same
    /// and leave the JSON reader at the same positions, and in the end the same data is unread.
    pub proof fn law_division_does_not_matter(
        self,
        calls: Seq<Call>,
        deliveries: Seq<Delivery>,
        others: Seq<Delivery>,
    )
        requires
            self.is_valid(),
            self.fits(deliveries),
            is_source(others),
            all_data(others) == all_data(deliveries),
        ensures
            ({
                let (last, answers, left) = self.run_all(calls, deliveries);
                let (other_last, other_answers, other_left) = self.run_all(calls, others);
                &&& other_answers == answers
                &&& other_last.completed(other_left) == last.completed(left)
            }),
    {
        self.lemma_run_all(calls, deliveries);
        self.lemma_run_all(calls, others);
    }
}

// ---- Tracking of the path ----

impl StringReading {
    /// The same state of a reader which does not track the path.
    pub open spec fn without_path(self) -> StringReading {
        StringReading { reader: self.reader.without_path(true), ..self }
    }

    proof fn lemma_read_chars_ignores_path(self, limit: nat)
        requires
            self.reader.doing is Idle,
        ensures
            self.without_path().read_chars(limit) == (
                self.read_chars(limit).0.without_path(),
                self.read_chars(limit).1.without_path(),
            ),
        decreases self.reader.scan.pending.bytes.len(),
    {
        if self.bytes.len() < limit {
            let pending = self.reader.scan.pending;
            let (scan, end) = self.reader.scan.string_step();
            let reader = ReaderModel { scan, ..self.reader };
            let read = StringReading { reader, ..self };
            if end is None {
                let char = pending.string_char().bytes(pending);
                let next = read.given(char, limit);
                assert(read.without_path().given(char, limit) == next.without_path());
                if scan.pending.bytes.len() < pending.bytes.len() {
                    next.lemma_read_chars_ignores_path(limit);
                }
            }
        }
    }

    /// Reading a string value in a streaming way gives the same bytes and the same end whether or
    /// not the path is tracked, and the same result up to the path itself.
    pub proof fn law_read_ignores_path(self, limit: nat)
        requires
            self.reader.doing is Idle,
        ensures
            self.without_path().read(limit) == (
                self.read(limit).0.without_path(),
                self.read(limit).1.without_path(),
            ),
    {
        let given = self.given(self.overflow, limit);
        assert(self.without_path().given(self.overflow, limit) == given.without_path());
        given.lemma_read_chars_ignores_path(limit);
    }
}

impl Value {
    /// The same value, without the JSON path of an error.
    pub open spec fn without_path(self) -> Value {
        match self {
            Value::PreviousError(problem) => Value::PreviousError(problem.without_path()),
            value => value,
        }
    }
}

impl Answer {
    /// The same answer, without JSON paths.
    pub open spec fn without_path(self) -> Answer {
        match self {
            Answer::Returned(outcome, place) => Answer::Returned(
                match outcome {
                    Outcome::Ready(value) => Outcome::Ready(value.without_path()),
                    stopped => stopped.without_path(),
                },
                place.without_path(),
            ),
            refused => refused,
        }
    }
}

impl ReaderModel {
    /// An operation which is not suspended has the same effect whether or not the path is tracked.
    proof fn lemma_called_ignores_path(self, operation: Operation)
        requires
            self.valid(),
            self.misuse(operation) is None,
            self.ongoing is None || self.ongoing == Some(Operation::TransferTo),
            self.scan.pending.eof,
        ensures
            self.call_ignores_path(operation),
    {
        self.lemma_called(operation);
        match operation {
            Operation::Peek => self.lemma_structure_call_ignores_path(operation),
            Operation::BeginArray => self.lemma_structure_call_ignores_path(operation),
            Operation::EndArray => self.lemma_structure_call_ignores_path(operation),
            Operation::BeginObject => self.lemma_structure_call_ignores_path(operation),
            Operation::EndObject => self.lemma_structure_call_ignores_path(operation),
            Operation::HasNext => self.lemma_structure_call_ignores_path(operation),
            Operation::NextName => self.lemma_structure_call_ignores_path(operation),
            Operation::NextString => self.lemma_value_call_ignores_path(operation),
            Operation::NextStringReader => self.lemma_value_call_ignores_path(operation),
            Operation::NextNumber => self.lemma_value_call_ignores_path(operation),
            Operation::NextBool => self.lemma_value_call_ignores_path(operation),
            Operation::NextNull => self.lemma_value_call_ignores_path(operation),
            Operation::SkipName => self.lemma_skip_name_call_ignores_path(),
            Operation::SkipValue => self.lemma_skip_value_call_ignores_path(),
            Operation::SkipToTopLevel => self.lemma_skip_to_top_level_call_ignores_path(),
            Operation::TransferTo => self.lemma_transfer_call_ignores_path(),
            Operation::ConsumeTrailingWhitespace => self.lemma_value_call_ignores_path(operation),
        }
    }

    /// Whether an operation has the same effect whether or not the path is tracked.
    spec fn call_ignores_path(self, operation: Operation) -> bool {
        self.without_path(true).called(operation) == (
            self.called(operation).0.without_path(true),
            self.called(operation).1.without_path(),
        )
    }

    #[verifier::rlimit(60)]
    proof fn lemma_structure_call_ignores_path(self, operation: Operation)
        requires
            self.valid(),
            self.misuse(operation) is None,
            operation is Peek || operation is BeginArray || operation is EndArray
                || operation is BeginObject || operation is EndObject || operation is HasNext
                || operation is NextName,
        ensures
            self.call_ignores_path(operation),
    {
        reveal(ReaderModel::called);
        match operation {
            Operation::Peek => self.law_peek_ignores_path(),
            Operation::BeginArray => self.law_begin_array_ignores_path(),
            Operation::EndArray => self.law_end_array_ignores_path(),
            Operation::BeginObject => self.law_begin_object_ignores_path(),
            Operation::EndObject => self.law_end_object_ignores_path(),
            Operation::HasNext => self.law_has_next_ignores_path(),
            Operation::NextName => self.law_next_name_ignores_path(),
            _ => {},
        }
    }

    #[verifier::rlimit(60)]
    proof fn lemma_value_call_ignores_path(self, operation: Operation)
        requires
            self.valid(),
            self.misuse(operation) is None,
            operation is NextString || operation is NextStringReader || operation is NextNumber
                || operation is NextBool || operation is NextNull
                || operation is ConsumeTrailingWhitespace,
        ensures
            self.call_ignores_path(operation),
    {
        reveal(ReaderModel::called);
        match operation {
            Operation::NextString => self.law_next_string_ignores_path(),
            Operation::NextStringReader => self.law_next_string_reader_ignores_path(),
            Operation::NextNumber => self.law_next_number_ignores_path(),
            Operation::NextBool => self.law_next_bool_ignores_path(),
            Operation::NextNull => self.law_next_null_ignores_path(),
            Operation::ConsumeTrailingWhitespace => {
                self.law_consume_trailing_whitespace_ignores_path();
            },
            _ => {},
        }
    }

    #[verifier::rlimit(60)]
    proof fn lemma_skip_name_call_ignores_path(self)
        requires
            self.valid(),
            self.misuse(Operation::SkipName) is None,
            self.without_path(false) == self.without_path(true),
            !(self.called(Operation::SkipName).0.doing is ReadingName),
        ensures
            self.call_ignores_path(Operation::SkipName),
    {
        reveal(ReaderModel::called);
        self.law_skip_name_ignores_path();
    }

    #[verifier::rlimit(60)]
    proof fn lemma_skip_value_call_ignores_path(self)
        requires
            self.valid(),
            self.misuse(Operation::SkipValue) is None,
            self.without_path(false) == self.without_path(true),
            !(self.called(Operation::SkipValue).0.doing is ReadingName),
        ensures
            self.call_ignores_path(Operation::SkipValue),
    {
        reveal(ReaderModel::called);
        self.law_skip_value_ignores_path();
    }

    #[verifier::rlimit(60)]
    proof fn lemma_skip_to_top_level_call_ignores_path(self)
        requires
            self.valid(),
            self.misuse(Operation::SkipToTopLevel) is None,
            self.without_path(false) == self.without_path(true),
            !(self.called(Operation::SkipToTopLevel).0.doing is ReadingName),
        ensures
            self.call_ignores_path(Operation::SkipToTopLevel),
    {
        reveal(ReaderModel::called);
        self.law_skip_to_top_level_ignores_path();
    }

    #[verifier::rlimit(60)]
    proof fn lemma_transfer_call_ignores_path(self)
        requires
            self.valid(),
            self.misuse(Operation::TransferTo) is None,
        ensures
            self.call_ignores_path(Operation::TransferTo),
    {
        reveal(ReaderModel::called);
        self.law_transfer_next_ignores_path();
    }

    proof fn lemma_valid_without_path(self)
        requires
            self.valid(),
        ensures
            self.without_path(true).valid(),
    {
    }
}

impl StreamedString {
    pub open spec fn without_path(self) -> StreamedString {
        StreamedString {
            problem: match self.problem {
                Some(problem) => Some(problem.without_path()),
                None => None,
            },
            ..self
        }
    }
}

impl Session {
    /// The same session with a reader which does not track the path.
    pub open spec fn without_path(self) -> Session {
        Session {
            reader: self.reader.without_path(true),
            string: match self.string {
                Some(string) => Some(string.without_path()),
                None => None,
            },
        }
    }

    /// A call which has all data has the same effect whether or not the path is tracked.
    proof fn lemma_step_ignores_path(self, call: Call)
        requires
            self.is_valid(),
            self.has_ended(),
            self.refusal(call) is None,
        ensures
            ({
                let (next, outcome) = self.step(call);
                let (other, other_outcome) = self.without_path().step(call);
                let place = next.reader.place();
                &&& other == next.without_path()
                &&& Answer::Returned(other_outcome, other.reader.place()) == Answer::Returned(
                    outcome,
                    place,
                ).without_path()
            }),
    {
        reveal(Session::step);
        match call {
            Call::Operation(operation) => {
                self.reader.lemma_called_ignores_path(operation);
                self.reader.lemma_called(operation);
            },
            Call::Read(limit) => {
                let string = self.string->0;
                if string.problem is None {
                    let reading = string.reading(self.reader);
                    if reading.reached_end {
                        assert(self.without_path().string->0.reading(self.reader.without_path(true))
                            == reading.without_path());
                    } else {
                        assert(self.reader.doing is Idle);
                        reading.law_read_ignores_path(limit);
                        assert(self.without_path().string->0.reading(self.reader.without_path(true))
                            == reading.without_path());
                    }
                }
            },
        }
    }

    /// Calls which have all data have the same effect whether or not the path is tracked.
    proof fn lemma_run_all_ignores_path(self, calls: Seq<Call>)
        requires
            self.is_valid(),
            self.has_ended(),
        ensures
            ({
                let none = Seq::<Delivery>::empty();
                let (last, answers, _) = self.run_all(calls, none);
                let (other, other_answers, _) = self.without_path().run_all(calls, none);
                &&& other == last.without_path()
                &&& other_answers == answers.map_values(|answer: Answer| answer.without_path())
            }),
        decreases calls.len(),
    {
        let none = Seq::<Delivery>::empty();
        let strip = |answer: Answer| answer.without_path();
        let (last, answers, _) = self.run_all(calls, none);
        let (other, other_answers, _) = self.without_path().run_all(calls, none);
        if calls.len() > 0 {
            let call = calls[0];
            assert(self.without_path().refusal(call) == self.refusal(call));
            if self.refusal(call) is None {
                self.lemma_step(call);
                self.lemma_step_ignores_path(call);
                let next = self.step(call).0;
                assert(self.run(call, none) == (next, self.step(call).1, none));
                assert(self.without_path().step(call).0 == next.without_path());
                next.lemma_run_all_ignores_path(calls.skip(1));
            }
        }
        assert(other_answers =~= answers.map_values(strip));
    }

    /// Whether the path is tracked has no influence on any sequence of calls, however the data is
    /// divided into pieces: the same calls are allowed, they return the same and leave the JSON
    /// reader at the same positions, except that no path is reported if it is not tracked.
    pub proof fn law_sequence_ignores_path(self, calls: Seq<Call>, deliveries: Seq<Delivery>)
        requires
            self.is_valid(),
            self.fits(deliveries),
        ensures
            ({
                let (last, answers, left) = self.run_all(calls, deliveries);
                let (other, other_answers, other_left) = self.without_path().run_all(
                    calls,
                    deliveries,
                );
                &&& other_answers == answers.map_values(|answer: Answer| answer.without_path())
                &&& other.completed(other_left) == last.completed(left).without_path()
            }),
    {
        let other = self.without_path();
        self.reader.lemma_valid_without_path();
        assert(other.is_valid());
        self.lemma_run_all(calls, deliveries);
        other.lemma_run_all(calls, deliveries);
        let whole = self.completed(deliveries);
        assert(other.completed(deliveries) == whole.without_path());
        if !self.has_ended() {
            self.reader.lemma_extended(all_data(deliveries), true);
        }
        whole.lemma_run_all_ignores_path(calls);
    }

    /// Two new JSON readers whose settings differ only in whether they track the path give the same
    /// results for every sequence of calls, values as well as errors and positions, except that
    /// the one which does not track the path reports none.
    pub proof fn law_path_tracking_only_affects_paths(
        settings: ReaderSettings,
        calls: Seq<Call>,
        deliveries: Seq<Delivery>,
    )
        requires
            is_source(deliveries),
            all_data(deliveries).len() <= u64::MAX,
        ensures
            ({
                let tracking = ReaderSettings { track_path: true, ..settings };
                let other = ReaderSettings { track_path: false, ..settings };
                Session::start(other).run_all(calls, deliveries).1 == Session::start(
                    tracking,
                ).run_all(calls, deliveries).1.map_values(
                    |answer: Answer| answer.without_path(),
                )
            }),
    {
        let tracking = ReaderSettings { track_path: true, ..settings };
        let other = ReaderSettings { track_path: false, ..settings };
        let session = Session::start(tracking);
        ReaderModel::lemma_start(tracking);
        assert(session.is_valid());
        assert(session.without_path() == Session::start(other));
        session.law_sequence_ignores_path(calls, deliveries);
    }
}

} // verus!
