//! Reading of a string value in a streaming way.

use vstd::prelude::*;
use vstd::slice::slice_subrange;
use vstd::utf8::*;

use super::JsonStreamReader;
use crate::describe;
use crate::error::{IoError, Outcome, Problem, ReaderError, Stop, ValueType};
use crate::model::{Operation, ReaderModel};
use crate::position::JsonReaderPosition;
use crate::scan::StringEnd;

verus! {

/// Reader for the UTF-8 bytes of a string value
///
/// It is obtained from [`JsonStreamReader::next_string_reader`]. The JSON reader cannot be used
/// for anything else before the end of the string value has been reached.
#[derive(Debug)]
pub struct StringValueReader {
    /// Bytes of a multi-byte character for which the caller did not provide enough space
    utf8_buf: Vec<u8>,
    reached_end: bool,
    /// Description of the error which occurred, and which should be returned for every
    /// subsequent `read` call
    error: Option<String>,
}

/// Why reading bytes of a string value did not complete
#[derive(Debug, PartialEq, Eq)]
pub enum StringReadStop {
    /// The buffered data does not suffice; more data has to be provided before reading can be
    /// continued
    NeedsInput,
    /// Reading failed
    Error(ReaderError),
    /// Reading failed already before; describes the previous error
    PreviousError(String),
}

/// The state while a string value is read in a streaming way.
#[verifier::ext_equal]
pub struct StringReading {
    pub reader: ReaderModel,
    /// Bytes which were read but not handed out yet.
    pub overflow: Seq<u8>,
    pub reached_end: bool,
    /// The bytes which were handed out.
    pub bytes: Seq<u8>,
}

impl ReaderModel {
    /// The end of a string value has been reached which was read in a streaming way.
    pub open spec fn string_value_closed(self) -> ReaderModel {
        ReaderModel {
            scan: self.scan.consumed(1, 1),
            string_reader_active: false,
            ..self
        }.value_ended()
    }
}

impl StringReading {
    /// Bytes are handed out, as long as there are not more than `limit` of them.
    pub open spec fn given(self, more: Seq<u8>, limit: nat) -> StringReading {
        let room = (limit - self.bytes.len()) as nat;
        let count = if more.len() <= room {
            more.len()
        } else {
            room
        };
        StringReading {
            bytes: self.bytes + more.take(count as int),
            overflow: more.skip(count as int),
            ..self
        }
    }

    /// Reads characters of the string value until `limit` bytes were handed out or the end of the
    /// value has been reached.
    pub open spec fn read_chars(self, limit: nat) -> (StringReading, Outcome<()>)
        decreases self.reader.scan.pending.bytes.len(),
    {
        if self.bytes.len() >= limit {
            (self, Outcome::Ready(()))
        } else {
            let pending = self.reader.scan.pending;
            let (scan, end) = self.reader.scan.string_step();
            let reader = ReaderModel { scan, ..self.reader };
            match end {
                None => {
                    let next = StringReading { reader, ..self }.given(
                        pending.string_char().bytes(pending),
                        limit,
                    );
                    if scan.pending.bytes.len() < pending.bytes.len() {
                        next.read_chars(limit)
                    } else {
                        (next, Outcome::NeedsInput)
                    }
                },
                Some(StringEnd::Quote) => (
                    StringReading {
                        reader: reader.string_value_closed(),
                        reached_end: true,
                        ..self
                    },
                    Outcome::Ready(()),
                ),
                Some(StringEnd::NeedsInput) => (
                    StringReading { reader, ..self },
                    Outcome::NeedsInput,
                ),
                Some(StringEnd::Rejected(rejection)) => {
                    let (reader, outcome) = reader.rejected::<()>(rejection);
                    (StringReading { reader, ..self }, outcome)
                },
            }
        }
    }

    /// Reads bytes of the string value until `limit` bytes were handed out or the end of the value
    /// has been reached.
    pub open spec fn read(self, limit: nat) -> (StringReading, Outcome<()>) {
        if self.reached_end || self.bytes.len() >= limit {
            (self, Outcome::Ready(()))
        } else {
            self.given(self.overflow, limit).read_chars(limit)
        }
    }

    /// Whether the JSON reader is within the string value.
    pub open spec fn is_active(self) -> bool {
        &&& self.reader.valid()
        &&& self.reader.string_reader_active
        &&& !self.reached_end
    }

    /// Reading the string value keeps the JSON reader valid.
    pub proof fn lemma_read_chars(self, limit: nat)
        requires
            self.is_active(),
            self.overflow.len() == 0 || self.bytes.len() >= limit,
        ensures
            ({
                let (next, outcome) = self.read_chars(limit);
                &&& next.reader.valid()
                &&& next.reader.settings == self.reader.settings
                &&& next.reader.scan.pending.eof == self.reader.scan.pending.eof
                &&& next.reader.scan.total() + next.reader.unaccounted()
                    <= self.reader.scan.total() + self.reader.unaccounted()
                &&& next.reader.ongoing == if outcome is Failed {
                    None
                } else {
                    self.reader.ongoing
                }
                &&& !next.reached_end ==> next.reader.string_reader_active
                &&& next.reached_end ==> !next.reader.string_reader_active
                &&& next.bytes.len() >= self.bytes.len()
                &&& next.bytes.len() <= limit || next == self
                &&& outcome is NeedsInput ==> {
                    &&& !self.reader.scan.pending.eof
                    &&& next.reader.scan.pending.bytes.len() <= 11
                }
                &&& outcome matches Outcome::Failed(problem) ==> {
                    ||| problem is Syntax
                    ||| problem matches Problem::Io(IoError::InvalidUtf8, _)
                }
            }),
        decreases self.reader.scan.pending.bytes.len(),
    {
        if self.bytes.len() < limit {
            let pending = self.reader.scan.pending;
            self.reader.scan.lemma_string_step();
            let (scan, end) = self.reader.scan.string_step();
            let reader = ReaderModel { scan, ..self.reader };
            if end is None {
                let next = StringReading { reader, ..self }.given(
                    pending.string_char().bytes(pending),
                    limit,
                );
                next.lemma_read_chars(limit);
            } else if end == Some(StringEnd::Quote) {
                ReaderModel {
                    scan: scan.consumed(1, 1),
                    string_reader_active: false,
                    ..reader
                }.lemma_value_ended();
            }
        }
    }
}

/// The text of an error which occurred within a string value.
pub open spec fn string_problem_text(problem: Problem) -> Seq<char> {
    match problem {
        Problem::Syntax(kind, place) => describe::syntax_error_text(kind, place.text()),
        Problem::Io(error, place) => describe::io_error_text(error.text(), place.text()),
        _ => Seq::empty(),
    }
}

/// The text for a read attempt after an error occurred before.
pub open spec fn previous_error_text(error: Seq<char>) -> Seq<char> {
    "previous error 'other error': "@ + error
}

impl StringReadStop {
    /// Whether reading which stopped this way had the outcome.
    pub open spec fn tells(self, outcome: Outcome<()>) -> bool {
        match self {
            StringReadStop::NeedsInput => outcome is NeedsInput,
            StringReadStop::Error(error) => outcome matches Outcome::Failed(problem)
                && error.reports(problem),
            StringReadStop::PreviousError(_) => false,
        }
    }
}

impl StringValueReader {
    /// Bytes which were read but not handed out yet.
    pub closed spec fn overflow(self) -> Seq<u8> {
        self.utf8_buf@
    }

    /// Whether the end of the string value has been reached.
    pub closed spec fn is_at_end(self) -> bool {
        self.reached_end
    }

    /// The text of the error which occurred before, if any.
    pub closed spec fn previous_error(self) -> Option<Seq<char>> {
        match self.error {
            Some(error) => Some(error@),
            None => None,
        }
    }

    /// The state while the string value is read.
    pub open spec fn reading(self, reader: ReaderModel, bytes: Seq<u8>) -> StringReading {
        StringReading {
            reader,
            overflow: self.overflow(),
            reached_end: self.is_at_end(),
            bytes,
        }
    }

    fn new() -> (result: Self)
        ensures
            result.overflow() == Seq::<u8>::empty(),
            !result.is_at_end(),
            result.previous_error() is None,
    {
        StringValueReader { utf8_buf: Vec::new(), reached_end: false, error: None }
    }

    /// Gets the text for a read attempt, in case an error occurred before
    pub fn check_previous_error(&self) -> (result: Option<String>)
        ensures
            match self.previous_error() {
                Some(error) => result matches Some(text) && text@ == previous_error_text(error),
                None => result is None,
            },
    {
        match &self.error {
            None => None,
            Some(error) => {
                let mut text: String = "previous error 'other error': ".to_owned();
                text.append(error.as_str());
                Some(text)
            },
        }
    }

    /// Records that reading from the source failed
    ///
    /// `message` describes the error of the source.
    pub fn record_source_error(&mut self, message: &str, location: &JsonReaderPosition)
        ensures
            final(self).previous_error() == Some(
                describe::io_error_text(message@, location.text()),
            ),
            final(self).overflow() == old(self).overflow(),
            final(self).is_at_end() == old(self).is_at_end(),
    {
        self.error = Some(describe::describe_io_error(message, location));
    }

    /// Hands out bytes, as long as there are not more than `limit` of them.
    fn give(&mut self, more: Vec<u8>, bytes: &mut Vec<u8>, limit: usize)
        requires
            old(bytes)@.len() <= limit,
        ensures
            forall|reader: ReaderModel| #[trigger]
                final(self).reading(reader, final(bytes)@) == old(self).reading(
                    reader,
                    old(bytes)@,
                ).given(more@, limit as nat),
            final(self).is_at_end() == old(self).is_at_end(),
            final(self).previous_error() == old(self).previous_error(),
            final(bytes)@.len() <= limit,
            more@.len() == 0 || final(self).overflow().len() == 0 || final(bytes)@.len() == limit,
            more@.len() == 0 ==> final(self).overflow().len() == 0,
    {
        let room = limit - bytes.len();
        let count = if more.len() <= room {
            more.len()
        } else {
            room
        };
        bytes.extend_from_slice(slice_subrange(more.as_slice(), 0, count));
        let mut rest: Vec<u8> = Vec::new();
        rest.extend_from_slice(slice_subrange(more.as_slice(), count, more.len()));
        assert(bytes@ =~= old(bytes)@ + more@.take(count as int));
        assert(rest@ =~= more@.skip(count as int));
        self.utf8_buf = rest;
    }

    /// Reads bytes of the string value
    ///
    /// Adds UTF-8 bytes of the value to `bytes` until it contains `limit` bytes or the end of
    /// the value has been reached. The bytes do not necessarily end with a complete character.
    /// When more data is needed, reading is continued by calling this method again with the same
    /// arguments once more data was provided to the JSON reader.
    pub fn read<R>(
        &mut self,
        json_reader: &mut JsonStreamReader<R>,
        bytes: &mut Vec<u8>,
        limit: usize,
    ) -> (result: Result<(), StringReadStop>)
        requires
            old(json_reader).wf(),
            old(json_reader)@.string_reader_active || old(self).is_at_end()
                || old(self).previous_error() is Some,
            old(bytes)@.len() <= limit,
        ensures
            final(json_reader).wf(),
            final(json_reader).source() == old(json_reader).source(),
            !final(self).is_at_end() && final(self).previous_error() is None ==> final(json_reader)@.string_reader_active,
            match old(self).previous_error() {
                Some(error) => {
                    &&& result matches Err(StringReadStop::PreviousError(text)) && text@
                        == previous_error_text(error)
                    &&& *final(self) == *old(self)
                    &&& *final(json_reader) == *old(json_reader)
                    &&& final(bytes)@ == old(bytes)@
                },
                None => {
                    let (next, outcome) = old(self).reading(
                        old(json_reader)@,
                        old(bytes)@,
                    ).read(limit as nat);
                    &&& final(self).reading(final(json_reader)@, final(bytes)@) == next
                    &&& match result {
                        Ok(_) => outcome == Outcome::Ready(()),
                        Err(stop) => stop.tells(outcome),
                    }
                    &&& final(self).previous_error() == match outcome {
                        Outcome::Failed(problem) => Some(string_problem_text(problem)),
                        _ => None,
                    }
                },
            },
    {
        if let Some(text) = self.check_previous_error() {
            return Err(StringReadStop::PreviousError(text));
        }
        if self.reached_end || bytes.len() >= limit {
            return Ok(());
        }
        // Serve remaining bytes in the UTF-8 buffer first
        let mut remaining: Vec<u8> = Vec::new();
        std::mem::swap(&mut remaining, &mut self.utf8_buf);
        self.give(remaining, bytes, limit);
        let ghost start = self.reading(json_reader@, bytes@);
        proof {
            assert(start == old(self).reading(old(json_reader)@, old(bytes)@).given(
                old(self).overflow(),
                limit as nat,
            ));
        }
        while bytes.len() < limit
            invariant
                json_reader.wf(),
                json_reader.source() == old(json_reader).source(),
                json_reader@.string_reader_active,
                !self.is_at_end(),
                self.previous_error() is None,
                bytes@.len() <= limit,
                self.overflow().len() == 0 || bytes@.len() == limit,
                self.reading(json_reader@, bytes@).read_chars(limit as nat) == start.read_chars(
                    limit as nat,
                ),
                start.read_chars(limit as nat) == old(self).reading(
                    old(json_reader)@,
                    old(bytes)@,
                ).read(limit as nat),
                old(self).previous_error() is None,
            decreases json_reader@.scan.pending.bytes.len(),
        {
            let ghost now = self.reading(json_reader@, bytes@);
            proof {
                now.lemma_read_chars(limit as nat);
                now.reader.scan.lemma_string_step();
            }
            let mut char_bytes: Vec<u8> = Vec::new();
            match json_reader.read_string_value_char(&mut char_bytes) {
                Ok(false) => {
                    assert(char_bytes@ =~= now.reader.scan.pending.string_char().bytes(
                        now.reader.scan.pending,
                    ));
                    self.give(char_bytes, bytes, limit);
                },
                Ok(true) => {
                    self.reached_end = true;
                    return Ok(());
                },
                Err(Stop::NeedsInput) => return Err(StringReadStop::NeedsInput),
                Err(Stop::Error(error)) => {
                    self.error = Some(describe_string_error(&error));
                    return Err(StringReadStop::Error(error));
                },
            }
        }
        Ok(())
    }
}

/// Gets the text of an error which occurred within a string value.
fn describe_string_error(error: &ReaderError) -> (text: String)
    requires
        error.reports(error@),
        error@ is Syntax || error@ matches Problem::Io(IoError::InvalidUtf8, _),
    ensures
        text@ == string_problem_text(error@),
{
    match error {
        ReaderError::SyntaxError(error) => {
            proof {
                error.location.lemma_text(error.location@);
            }
            error.describe()
        },
        ReaderError::IoError { error, location } => {
            proof {
                location.lemma_text(location@);
            }
            describe::describe_io_error(error.message(), location)
        },
        _ => String::new(),
    }
}

impl<R> JsonStreamReader<R> {
    /// Whether a string value is currently being read by a [`StringValueReader`]
    pub fn is_string_value_reader_active(&self) -> (result: bool)
        ensures
            result == self@.string_reader_active,
    {
        self.is_string_value_reader_active
    }

    /// Consumes the start of a JSON string value, and returns a reader for its characters
    pub fn next_string_reader(&mut self) -> (result: Result<StringValueReader, Stop>)
        requires
            old(self).wf(),
            old(self)@.misuse(Operation::NextStringReader) is None,
        ensures
            final(self).wf(),
            final(self).source() == old(self).source(),
            final(self)@ == old(self)@.next_string_reader().0,
            match result {
                Ok(reader) => {
                    &&& old(self)@.next_string_reader().1 == Outcome::Ready(())
                    &&& final(self)@.string_reader_active
                    &&& reader.overflow() == Seq::<u8>::empty()
                    &&& !reader.is_at_end()
                    &&& reader.previous_error() is None
                },
                Err(stop) => stop.tells(old(self)@.next_string_reader().1),
            },
    {
        proof {
            self@.lemma_ready(Operation::NextStringReader);
            self@.lemma_next_string_reader();
        }
        self.ongoing = None;
        let result = self.start_expected_value_type(ValueType::String, false);
        match self.conclude(Operation::NextStringReader, result) {
            Ok(_) => {
                self.is_string_value_reader_active = true;
                Ok(StringValueReader::new())
            },
            Err(stop) => Err(stop),
        }
    }

    /// Reads the next character of a string value which is read in a streaming way, and adds its
    /// UTF-8 bytes to the given bytes.
    ///
    /// Returns whether the end of the value has been reached instead.
    fn read_string_value_char(&mut self, bytes: &mut Vec<u8>) -> (result: Result<bool, Stop>)
        requires
            old(self).wf(),
            old(self)@.string_reader_active,
        ensures
            final(self).wf(),
            final(self).source() == old(self).source(),
            ({
                let pending = old(self)@.scan.pending;
                let (scan, end) = old(self)@.scan.string_step();
                let next = ReaderModel { scan, ..old(self)@ };
                match end {
                    None => {
                        &&& result matches Ok(false)
                        &&& final(self)@ == next
                        &&& final(bytes)@ == old(bytes)@ + pending.string_char().bytes(pending)
                    },
                    Some(StringEnd::Quote) => {
                        &&& result matches Ok(true)
                        &&& final(self)@ == next.string_value_closed()
                    },
                    Some(StringEnd::NeedsInput) => {
                        &&& result matches Err(Stop::NeedsInput)
                        &&& final(self)@ == next
                    },
                    Some(StringEnd::Rejected(rejection)) => {
                        &&& result matches Err(Stop::Error(error)) && error.reports(
                            rejection.at(next.place()),
                        )
                        &&& final(self)@ == next.rejected::<()>(rejection).0
                    },
                }
            }),
    {
        proof {
            self@.scan.lemma_string_step();
        }
        match self.scanner.copy_string_char(bytes) {
            None => Ok(false),
            Some(StringEnd::Quote) => {
                self.scanner.pass_ascii();
                self.is_string_value_reader_active = false;
                proof {
                    self@.lemma_value_ended();
                }
                self.on_value_end();
                Ok(true)
            },
            Some(StringEnd::NeedsInput) => Err(Stop::NeedsInput),
            Some(StringEnd::Rejected(rejection)) => self.reject(rejection),
        }
    }
}

} // verus!
