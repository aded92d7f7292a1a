//! What the operations of the JSON reader mean.
//!
//! Every operation is a function from the state of the reader to its next state and the outcome
//! of the operation. An operation for which the available data does not suffice records how far
//! it got in the state; calling it again once more data is available continues it.

use vstd::prelude::*;
use vstd::utf8::*;

use crate::ascii;
use crate::error::{
    Outcome, Problem, Rejection, SyntaxErrorKind, UnexpectedStructureKind, ValueType,
};
use crate::lookahead::Ahead;
use crate::number::{NumberEnd, NumberProgress, NumberState};
use crate::position::{PathPiece, Place, Spot};
use crate::scan::{GapEnd, ScanState, StringEnd};
use crate::settings::ReaderSettings;
use crate::token::{Context, PeekedValue, StackValue, Token};

verus! {

/// What the reader is in the middle of.
#[derive(Debug, Clone, Copy, PartialEq, Eq, Structural)]
pub enum Activity {
    Idle,
    /// Within a member name, behind its opening double quote
    ReadingName,
    /// Within a string value, behind its opening double quote
    ReadingString,
    /// Within a number
    ReadingNumber(NumberState),
    /// Within a string value which is transferred to a writer in pieces
    TransferringString,
    /// Behind a string value which was completely transferred to a writer
    StringTransferred,
}

/// What an [`Activity`] stands for.
pub enum Doing {
    Idle,
    ReadingName,
    ReadingString,
    ReadingNumber(NumberProgress),
    TransferringString,
    StringTransferred,
}

impl View for Activity {
    type V = Doing;

    open spec fn view(&self) -> Doing {
        match self {
            Activity::Idle => Doing::Idle,
            Activity::ReadingName => Doing::ReadingName,
            Activity::ReadingString => Doing::ReadingString,
            Activity::ReadingNumber(state) => Doing::ReadingNumber(state@),
            Activity::TransferringString => Doing::TransferringString,
            Activity::StringTransferred => Doing::StringTransferred,
        }
    }
}

/// How far the transfer of a value to a writer got.
#[derive(Debug, Clone, Copy, PartialEq, Eq, Structural)]
pub struct Transfer {
    /// Nesting depth at which the value stands
    pub base: usize,
    /// Whether the start of the value was consumed
    pub started: bool,
}

/// What a [`Transfer`] stands for.
pub struct TransferProgress {
    pub base: nat,
    pub started: bool,
}

impl View for Transfer {
    type V = TransferProgress;

    open spec fn view(&self) -> TransferProgress {
        TransferProgress { base: self.base as nat, started: self.started }
    }
}

/// The operations of the JSON reader
#[derive(Debug, Clone, Copy, PartialEq, Eq, Structural)]
pub enum Operation {
    Peek,
    BeginArray,
    EndArray,
    BeginObject,
    EndObject,
    HasNext,
    NextName,
    NextString,
    NextStringReader,
    NextNumber,
    NextBool,
    NextNull,
    SkipName,
    SkipValue,
    SkipToTopLevel,
    TransferTo,
    ConsumeTrailingWhitespace,
}

/// The state of the reader.
#[verifier::ext_equal]
pub struct ReaderModel {
    pub scan: ScanState,
    pub peeked: Option<PeekedValue>,
    /// Whether the current array or object is empty, or at top-level whether no value has been
    /// consumed yet.
    pub is_empty: bool,
    pub expects_member_name: bool,
    /// The arrays and objects which were started and not ended yet, outermost first.
    pub stack: Seq<StackValue>,
    pub string_reader_active: bool,
    pub path: Option<Seq<PathPiece>>,
    pub settings: ReaderSettings,
    /// Whether the colon behind the last member name was consumed.
    pub colon_read: bool,
    /// The place of the comma in front of the next token, if it was consumed.
    pub comma: Option<Spot>,
    pub doing: Doing,
    /// Nesting depth of the value which is being skipped, if any.
    pub skip_base: Option<nat>,
    pub transfer: Option<TransferProgress>,
    /// The operation which was called and has not completed yet, if any.
    pub ongoing: Option<Operation>,
}

/// The placeholder in the JSON path for a member whose name was not read yet.
pub open spec fn unknown_name() -> Seq<char> {
    "<?>"@
}

/// The index of the next array item.
pub open spec fn next_index(index: u32) -> u32 {
    if index == u32::MAX {
        0
    } else {
        (index + 1) as u32
    }
}

impl ReaderModel {
    /// The state at the start of a document.
    pub open spec fn start(settings: ReaderSettings) -> ReaderModel {
        ReaderModel {
            scan: ScanState::start(),
            peeked: None,
            is_empty: true,
            expects_member_name: false,
            stack: Seq::empty(),
            string_reader_active: false,
            path: if settings.track_path {
                Some(Seq::empty())
            } else {
                None
            },
            settings,
            colon_read: false,
            comma: None,
            doing: Doing::Idle,
            skip_base: None,
            transfer: None,
            ongoing: None,
        }
    }

    /// More data is available.
    pub open spec fn extended(self, bytes: Seq<u8>, eof: bool) -> ReaderModel {
        ReaderModel { scan: self.scan.extended(bytes, eof), ..self }
    }

    pub open spec fn place(self) -> Place {
        Place { path: self.path, spot: self.scan.spot }
    }

    pub open spec fn is_behind_top_level(self) -> bool {
        !self.is_empty && self.stack.len() == 0
    }

    pub open spec fn is_in_array(self) -> bool {
        self.stack.len() > 0 && self.stack.last() is Array
    }

    pub open spec fn is_in_object(self) -> bool {
        self.stack.len() > 0 && self.stack.last() is Object
    }

    pub open spec fn expects_member_value(self) -> bool {
        self.is_in_object() && !self.expects_member_name
    }

    pub open spec fn can_have_comma(self) -> bool {
        !self.is_empty && (self.is_in_array() || self.expects_member_name)
    }

    pub open spec fn context(self) -> Context {
        if self.expects_member_name {
            Context::Name
        } else if self.is_in_array() {
            Context::Item
        } else {
            Context::Value
        }
    }

    /// The operation in progress, if any, is given up.
    pub open spec fn settled(self) -> ReaderModel {
        ReaderModel {
            scan: self.scan.settled(),
            colon_read: false,
            comma: None,
            doing: Doing::Idle,
            skip_base: None,
            transfer: None,
            ongoing: None,
            ..self
        }
    }

    /// The operation fails.
    pub open spec fn failed<T>(self, problem: Problem) -> (ReaderModel, Outcome<T>) {
        (self.settled(), Outcome::Failed(problem))
    }

    /// The operation fails because the data at the current place is rejected.
    pub open spec fn rejected<T>(self, rejection: Rejection) -> (ReaderModel, Outcome<T>) {
        self.failed(rejection.at(self.place()))
    }

    /// The operation fails with a syntax error at the current place.
    pub open spec fn malformed<T>(self, kind: SyntaxErrorKind) -> (ReaderModel, Outcome<T>) {
        self.rejected(Rejection::Syntax(kind))
    }

    /// The operation fails because of the structure of the document at the current place.
    pub open spec fn misfit<T>(self, kind: UnexpectedStructureKind) -> (ReaderModel, Outcome<T>) {
        self.failed(Problem::Structure(kind, self.place()))
    }

    /// An operation which was called stops.
    pub open spec fn concluded<T>(operation: Operation, stop: (ReaderModel, Outcome<T>)) -> (
        ReaderModel,
        Outcome<T>,
    ) {
        let ongoing = if stop.1 is NeedsInput {
            Some(operation)
        } else {
            None
        };
        (ReaderModel { ongoing, ..stop.0 }, stop.1)
    }

    // ---- Peeking ----

    /// Consumes the colon behind a member name.
    pub open spec fn after_name(self) -> (ReaderModel, Outcome<()>) {
        let (scan, end) = self.scan.skip_gap(self.settings.allow_comments);
        let next = ReaderModel { scan, ..self };
        match end {
            GapEnd::Byte(byte) => if byte == ascii::COLON {
                (
                    ReaderModel { scan: scan.consumed(1, 1), colon_read: true, ..self },
                    Outcome::Ready(()),
                )
            } else {
                next.malformed(SyntaxErrorKind::MissingColon)
            },
            GapEnd::Eof => next.malformed(SyntaxErrorKind::MissingColon),
            GapEnd::NeedsInput => (next, Outcome::NeedsInput),
            GapEnd::Rejected(rejection) => next.rejected(rejection),
        }
    }

    /// Peeks at the token which starts with the byte that is next.
    pub open spec fn peek_token(self, byte: u8) -> (ReaderModel, Outcome<Option<PeekedValue>>) {
        match self.scan.pending.token(byte, self.context()) {
            Token::NeedsInput => (self, Outcome::NeedsInput),
            Token::Rejected { rejection, consumed } => ReaderModel {
                scan: self.scan.dropped(consumed as int),
                ..self
            }.rejected(rejection),
            Token::Found(peeked) => {
                let consumed = ReaderModel { scan: self.scan.dropped(peeked.len() as int), ..self };
                let trailing_comma = peeked.is_end() && !self.settings.allow_trailing_comma;
                match self.comma {
                    // Report location of comma
                    Some(spot) if trailing_comma => ReaderModel {
                        scan: ScanState { spot, ..self.scan },
                        ..self
                    }.malformed(SyntaxErrorKind::TrailingCommaNotEnabled),
                    None if !peeked.is_end() && self.can_have_comma() => if peeked.is_literal() {
                        consumed.malformed(SyntaxErrorKind::MissingComma)
                    } else {
                        self.malformed(SyntaxErrorKind::MissingComma)
                    },
                    _ => (
                        ReaderModel {
                            peeked: Some(peeked),
                            colon_read: false,
                            comma: None,
                            ..consumed
                        },
                        Outcome::Ready(Some(peeked)),
                    ),
                }
            },
        }
    }

    /// Peeks at the token behind a comma.
    pub open spec fn peek_after_comma(self) -> (ReaderModel, Outcome<Option<PeekedValue>>) {
        let (scan, end) = self.scan.skip_gap(self.settings.allow_comments);
        let next = ReaderModel { scan, ..self };
        match end {
            GapEnd::Byte(byte) => next.peek_token(byte),
            GapEnd::Eof => next.malformed(SyntaxErrorKind::IncompleteDocument),
            GapEnd::NeedsInput => (next, Outcome::NeedsInput),
            GapEnd::Rejected(rejection) => next.rejected(rejection),
        }
    }

    /// Peeks at the next token, in front of which there may be a comma.
    pub open spec fn peek_separated(self) -> (ReaderModel, Outcome<Option<PeekedValue>>) {
        if self.comma is Some {
            self.peek_after_comma()
        } else {
            let (scan, end) = self.scan.skip_gap(self.settings.allow_comments);
            let next = ReaderModel { scan, ..self };
            match end {
                GapEnd::Byte(byte) => if byte != ascii::COMMA {
                    next.peek_token(byte)
                } else if !self.can_have_comma() {
                    next.malformed(SyntaxErrorKind::UnexpectedComma)
                } else {
                    ReaderModel {
                        scan: scan.consumed(1, 1),
                        comma: Some(scan.spot),
                        ..self
                    }.peek_after_comma()
                },
                GapEnd::Eof => (ReaderModel { colon_read: false, ..next }, Outcome::Ready(None)),
                GapEnd::NeedsInput => (next, Outcome::NeedsInput),
                GapEnd::Rejected(rejection) => next.rejected(rejection),
            }
        }
    }

    /// Peeks at the next token; there is none if the end of the data has been reached.
    pub open spec fn peek_optional(self) -> (ReaderModel, Outcome<Option<PeekedValue>>) {
        if self.peeked is Some {
            (self, Outcome::Ready(self.peeked))
        } else if self.expects_member_value() && !self.colon_read {
            // Finish member name which has just been consumed before
            let (next, outcome) = self.after_name();
            match outcome {
                Outcome::Ready(_) => next.peek_separated(),
                stopped => (next, stopped.stopped()),
            }
        } else {
            self.peek_separated()
        }
    }

    /// Peeks at the next token, which has to exist.
    pub open spec fn peek_internal(self) -> (ReaderModel, Outcome<PeekedValue>) {
        let (next, outcome) = self.peek_optional();
        match outcome {
            Outcome::Ready(Some(peeked)) => (next, Outcome::Ready(peeked)),
            Outcome::Ready(None) => if next.is_behind_top_level()
                && next.settings.allow_multiple_top_level {
                next.misfit(UnexpectedStructureKind::FewerElementsThanExpected)
            } else {
                next.malformed(SyntaxErrorKind::IncompleteDocument)
            },
            stopped => (next, stopped.stopped()),
        }
    }

    /// Consumes the token which was peeked at.
    pub open spec fn consume_peeked(self) -> ReaderModel {
        let len = self.peeked->0.len();
        ReaderModel {
            scan: ScanState { spot: self.scan.spot.moved(len, len), ..self.scan },
            peeked: None,
            ..self
        }
    }

    /// Peeks at the type of the next value.
    pub open spec fn peek_value(self) -> (ReaderModel, Outcome<ValueType>) {
        let (next, outcome) = self.peek_internal();
        match outcome {
            Outcome::Ready(peeked) => if peeked is ArrayEnd {
                next.misfit(UnexpectedStructureKind::FewerElementsThanExpected)
            } else {
                (next, Outcome::Ready(peeked.value_type()))
            },
            stopped => (next, stopped.stopped()),
        }
    }

    // ---- Values ----

    pub open spec fn has_max_depth(self) -> bool {
        self.settings.max_nesting_depth matches Some(max) && self.stack.len() >= max
    }

    /// Consumes the start of a value, which must have the expected type.
    pub open spec fn start_value(self, expected: ValueType, check_depth: bool) -> (
        ReaderModel,
        Outcome<PeekedValue>,
    ) {
        let (next, outcome) = self.peek_internal();
        match outcome {
            Outcome::Ready(peeked) => if peeked is ArrayEnd {
                next.misfit(UnexpectedStructureKind::FewerElementsThanExpected)
            } else if peeked.value_type() != expected {
                next.failed(Problem::ValueType(expected, peeked.value_type(), next.place()))
            } else if check_depth && next.has_max_depth() {
                next.failed(Problem::Depth(next.settings.max_nesting_depth->0, next.place()))
            } else {
                (next.consume_peeked(), Outcome::Ready(peeked))
            },
            stopped => (next, stopped.stopped()),
        }
    }

    /// The place of the next value becomes the place behind it.
    pub open spec fn value_ended(self) -> ReaderModel {
        ReaderModel {
            path: match self.path {
                Some(path) if self.is_in_array() => match path.last() {
                    PathPiece::Item(index) => Some(
                        path.drop_last().push(PathPiece::Item(next_index(index))),
                    ),
                    PathPiece::Member(_) => Some(path),
                },
                path => path,
            },
            expects_member_name: self.expects_member_name || self.is_in_object(),
            is_empty: false,
            ..self
        }
    }

    /// An array or object was started.
    pub open spec fn entered(self, container: StackValue) -> ReaderModel {
        ReaderModel {
            stack: self.stack.push(container),
            is_empty: true,
            expects_member_name: container is Object,
            path: match self.path {
                Some(path) => Some(
                    path.push(
                        match container {
                            StackValue::Array => PathPiece::Item(0),
                            StackValue::Object => PathPiece::Member(unknown_name()),
                        },
                    ),
                ),
                None => None,
            },
            ..self
        }
    }

    /// An array or object was ended.
    pub open spec fn left(self) -> ReaderModel {
        ReaderModel {
            stack: self.stack.drop_last(),
            expects_member_name: false,
            path: match self.path {
                Some(path) => Some(path.drop_last()),
                None => None,
            },
            ..self
        }.value_ended()
    }

    pub open spec fn begin_container(self, container: StackValue) -> (ReaderModel, Outcome<()>) {
        let value_type = match container {
            StackValue::Array => ValueType::Array,
            StackValue::Object => ValueType::Object,
        };
        let (next, outcome) = self.start_value(value_type, true);
        match outcome {
            Outcome::Ready(_) => (next.entered(container), Outcome::Ready(())),
            stopped => (next, stopped.stopped()),
        }
    }

    pub open spec fn end_container(self, container: StackValue) -> (ReaderModel, Outcome<()>) {
        let end = match container {
            StackValue::Array => PeekedValue::ArrayEnd,
            StackValue::Object => PeekedValue::ObjectEnd,
        };
        let (next, outcome) = self.peek_internal();
        match outcome {
            Outcome::Ready(peeked) => if peeked == end {
                (next.consume_peeked().left(), Outcome::Ready(()))
            } else {
                next.misfit(UnexpectedStructureKind::MoreElementsThanExpected)
            },
            stopped => (next, stopped.stopped()),
        }
    }

    /// Whether there is a next array item, object member or top-level value.
    pub open spec fn check_next(self) -> (ReaderModel, Outcome<bool>) {
        if self.stack.len() == 0 {
            let (next, outcome) = self.peek_optional();
            match outcome {
                Outcome::Ready(peeked) => (
                    next,
                    Outcome::Ready(peeked matches Some(peeked) && !peeked.is_end()),
                ),
                stopped => (next, stopped.stopped()),
            }
        } else {
            let (next, outcome) = self.peek_internal();
            match outcome {
                Outcome::Ready(peeked) => (next, Outcome::Ready(!peeked.is_end())),
                stopped => (next, stopped.stopped()),
            }
        }
    }

    pub open spec fn read_bool(self) -> (ReaderModel, Outcome<bool>) {
        let (next, outcome) = self.start_value(ValueType::Boolean, false);
        match outcome {
            Outcome::Ready(peeked) => (next.value_ended(), Outcome::Ready(peeked is BooleanTrue)),
            stopped => (next, stopped.stopped()),
        }
    }

    pub open spec fn read_null(self) -> (ReaderModel, Outcome<()>) {
        let (next, outcome) = self.start_value(ValueType::Null, false);
        match outcome {
            Outcome::Ready(_) => (next.value_ended(), Outcome::Ready(())),
            stopped => (next, stopped.stopped()),
        }
    }

    // ---- Names and strings ----

    /// Reading of a value starts; if `keep` is false its bytes are skipped.
    pub open spec fn reading(self, doing: Doing, keep: bool) -> ReaderModel {
        ReaderModel {
            scan: ScanState {
                value: if keep {
                    Some(Seq::empty())
                } else {
                    None
                },
                ..self.scan
            },
            doing,
            ..self
        }
    }

    /// The text of the value which is being read; empty if its bytes are skipped.
    pub open spec fn text(self) -> Seq<char> {
        match self.scan.value {
            Some(value) => decode_utf8(value),
            None => Seq::empty(),
        }
    }

    /// Consumes the start of a member name.
    pub open spec fn before_name(self) -> (ReaderModel, Outcome<()>) {
        let (next, outcome) = self.check_next();
        match outcome {
            Outcome::Ready(true) => (
                ReaderModel { expects_member_name: false, ..next.consume_peeked() },
                Outcome::Ready(()),
            ),
            Outcome::Ready(false) => next.misfit(
                UnexpectedStructureKind::FewerElementsThanExpected,
            ),
            stopped => (next, stopped.stopped()),
        }
    }

    /// The last piece of the path becomes the given member name.
    pub open spec fn named(self, name: Seq<char>) -> ReaderModel {
        ReaderModel {
            path: match self.path {
                Some(path) => Some(path.drop_last().push(PathPiece::Member(name))),
                None => None,
            },
            ..self
        }
    }

    /// The closing double quote is consumed and reading of the string ends.
    pub open spec fn string_closed(self) -> ReaderModel {
        ReaderModel {
            scan: ScanState { value: None, ..self.scan.consumed(1, 1) },
            doing: Doing::Idle,
            ..self
        }
    }

    /// Continues reading a member name.
    pub open spec fn continue_name(self) -> (ReaderModel, Outcome<Seq<char>>) {
        let (scan, end) = self.scan.read_string();
        let next = ReaderModel { scan, ..self };
        match end {
            StringEnd::Quote => (next.string_closed().named(next.text()), Outcome::Ready(next.text())),
            StringEnd::NeedsInput => (next, Outcome::NeedsInput),
            StringEnd::Rejected(rejection) => next.rejected(rejection),
        }
    }

    /// Reads a member name; if `keep` is false its bytes are skipped.
    pub open spec fn read_name(self, keep: bool) -> (ReaderModel, Outcome<Seq<char>>) {
        if self.doing is ReadingName {
            self.continue_name()
        } else {
            let (next, outcome) = self.before_name();
            match outcome {
                Outcome::Ready(_) => next.reading(Doing::ReadingName, keep).continue_name(),
                stopped => (next, stopped.stopped()),
            }
        }
    }

    /// Skips a member name; it has to be read nevertheless if it becomes part of the path.
    pub open spec fn pass_name(self) -> (ReaderModel, Outcome<()>) {
        let (next, outcome) = self.read_name(self.path is Some);
        match outcome {
            Outcome::Ready(_) => (next, Outcome::Ready(())),
            stopped => (next, stopped.stopped()),
        }
    }

    /// Continues reading a string value.
    pub open spec fn continue_string(self) -> (ReaderModel, Outcome<Seq<char>>) {
        let (scan, end) = self.scan.read_string();
        let next = ReaderModel { scan, ..self };
        match end {
            StringEnd::Quote => (next.string_closed().value_ended(), Outcome::Ready(next.text())),
            StringEnd::NeedsInput => (next, Outcome::NeedsInput),
            StringEnd::Rejected(rejection) => next.rejected(rejection),
        }
    }

    /// Reads a string value; if `keep` is false its bytes are skipped.
    pub open spec fn read_string(self, keep: bool) -> (ReaderModel, Outcome<Seq<char>>) {
        if self.doing is ReadingString {
            self.continue_string()
        } else {
            let (next, outcome) = self.start_value(ValueType::String, false);
            match outcome {
                Outcome::Ready(_) => next.reading(Doing::ReadingString, keep).continue_string(),
                stopped => (next, stopped.stopped()),
            }
        }
    }

    // ---- Numbers ----

    /// A number was read completely.
    ///
    /// There must be no misleading chars directly afterwards, e.g. `123f`.
    pub open spec fn number_read(self, progress: NumberProgress) -> (
        ReaderModel,
        Outcome<Seq<char>>,
    ) {
        let restricted = self.scan.value is Some && self.settings.restrict_number_values;
        if restricted && !progress.is_supported() {
            self.failed(Problem::Number(self.text(), self.place()))
        } else {
            let next = ReaderModel {
                scan: ScanState {
                    value: None,
                    spot: self.scan.spot.moved(progress.len, progress.len),
                    ..self.scan
                },
                doing: Doing::Idle,
                ..self
            };
            match self.scan.pending.ahead(0) {
                Ahead::Byte(byte) if !ascii::is_separator(byte) => next.malformed(
                    SyntaxErrorKind::TrailingDataAfterNumber,
                ),
                _ => (next.value_ended(), Outcome::Ready(self.text())),
            }
        }
    }

    /// Continues reading a number.
    pub open spec fn continue_number(self, progress: NumberProgress) -> (
        ReaderModel,
        Outcome<Seq<char>>,
    ) {
        let (scan, advanced, end) = self.scan.read_number(progress);
        let next = ReaderModel { scan, doing: Doing::ReadingNumber(advanced), ..self };
        match end {
            NumberEnd::NeedsInput => (next, Outcome::NeedsInput),
            NumberEnd::Malformed => next.malformed(SyntaxErrorKind::MalformedNumber),
            NumberEnd::Complete => next.number_read(advanced),
        }
    }

    /// Reads a number; if `keep` is false its bytes are skipped.
    pub open spec fn read_number(self, keep: bool) -> (ReaderModel, Outcome<Seq<char>>) {
        match self.doing {
            Doing::ReadingNumber(progress) => self.continue_number(progress),
            _ => {
                let (next, outcome) = self.start_value(ValueType::Number, false);
                match outcome {
                    Outcome::Ready(_) => {
                        let progress = NumberProgress::start();
                        next.reading(Doing::ReadingNumber(progress), keep).continue_number(progress)
                    },
                    stopped => (next, stopped.stopped()),
                }
            },
        }
    }
}

} // verus!
