//! Laws: all ways to read a string value agree.

use vstd::prelude::*;
use vstd::utf8::*;

use crate::error::{Outcome, Stop, ValueType};
use crate::model::{Doing, Operation, ReaderModel};
use crate::reader::string_value::StringReading;
use crate::scan::{ScanState, StringEnd};
use crate::traversal::Transferred;

verus! {

impl ScanState {
    /// The same place, with the given bytes of a value.
    pub open spec fn with_value(self, value: Option<Seq<u8>>) -> ScanState {
        ScanState { value, ..self }
    }

    /// The UTF-8 bytes of the string characters up to the closing double quote, or up to where the
    /// string cannot be read any further.
    pub open spec fn string_bytes(self) -> Seq<u8> {
        self.with_value(Some(Seq::empty())).read_string().0.value->0
    }

    /// Where reading of the string stops, and why.
    pub open spec fn string_stop(self) -> (ScanState, StringEnd) {
        let (next, end) = self.with_value(None).read_string();
        (next, end)
    }

    /// What has been read before does not influence how a string is read.
    pub proof fn lemma_string_bytes(self)
        ensures
            self.read_string().1 == self.string_stop().1,
            self.read_string().0 == self.string_stop().0.with_value(
                match self.value {
                    Some(value) => Some(value + self.string_bytes()),
                    None => None,
                },
            ),
            valid_utf8(self.string_bytes()),
        decreases self.pending.bytes.len(),
    {
        let empty = self.with_value(Some(Seq::empty()));
        let none = self.with_value(None);
        self.lemma_string_step();
        empty.lemma_string_step();
        none.lemma_string_step();
        empty.lemma_read_string();
        let (next, end) = self.string_step();
        let (next_empty, _) = empty.string_step();
        let (next_none, _) = none.string_step();
        if end is None {
            let char = self.pending.string_char().bytes(self.pending);
            assert(Seq::<u8>::empty() + char =~= char);
            assert(next_empty == next.with_value(Some(char)));
            assert(next_none == next.with_value(None));
            next.lemma_string_bytes();
            next_empty.lemma_string_bytes();
            assert(next_empty.with_value(None) == next.with_value(None));
            assert(next_empty.string_bytes() == next.string_bytes());
            assert(self.string_bytes() == char + next.string_bytes());
            if let Some(value) = self.value {
                assert(value + char + next.string_bytes() =~= value + self.string_bytes());
            }
        } else {
            if let Some(value) = self.value {
                assert(value + self.string_bytes() =~= value);
            }
        }
    }

    /// Reading a single character first makes no difference.
    pub proof fn lemma_string_bytes_step(self)
        ensures
            ({
                let (next, end) = self.string_step();
                let char = self.pending.string_char().bytes(self.pending);
                match end {
                    None => {
                        &&& self.string_bytes() == char + next.string_bytes()
                        &&& self.string_stop() == next.string_stop()
                    },
                    Some(end) => {
                        &&& self.string_bytes() == Seq::<u8>::empty()
                        &&& self.string_stop() == (next.with_value(None), end)
                    },
                }
            }),
    {
        let empty = self.with_value(Some(Seq::empty()));
        let none = self.with_value(None);
        self.lemma_string_step();
        empty.lemma_string_step();
        none.lemma_string_step();
        let (next, end) = self.string_step();
        let (next_empty, _) = empty.string_step();
        if end is None {
            let char = self.pending.string_char().bytes(self.pending);
            assert(Seq::<u8>::empty() + char =~= char);
            next_empty.lemma_string_bytes();
            assert(next_empty.with_value(Some(Seq::empty())) == next.with_value(
                Some(Seq::empty()),
            ));
            assert(none.string_step().0 == next.with_value(None));
        }
    }
}

impl StringReading {
    /// The bytes which were handed out, and those which are still going to be handed out.
    pub open spec fn all_bytes(self) -> Seq<u8> {
        self.bytes + self.overflow + if self.reached_end {
            Seq::empty()
        } else {
            self.reader.scan.string_bytes()
        }
    }

    /// More data is available.
    pub open spec fn extended(self, bytes: Seq<u8>, eof: bool) -> StringReading {
        StringReading { reader: self.reader.extended(bytes, eof), ..self }
    }

    /// The state of the JSON reader behind the string value.
    pub open spec fn reader_behind(self) -> ReaderModel {
        if self.reached_end {
            self.reader
        } else {
            ReaderModel {
                scan: self.reader.scan.string_stop().0,
                ..self.reader
            }.string_value_closed()
        }
    }

    /// Handing out bytes does not change which bytes there are.
    pub proof fn lemma_given(self, more: Seq<u8>, limit: nat)
        requires
            self.bytes.len() <= limit,
        ensures
            self.given(more, limit).bytes + self.given(more, limit).overflow == self.bytes + more,
            self.given(more, limit).bytes.len() < limit ==> self.given(more, limit).overflow.len()
                == 0,
            self.given(more, limit).bytes.len() <= limit,
    {
        let given = self.given(more, limit);
        assert(given.bytes + given.overflow =~= self.bytes + more);
    }

    /// Reading characters of the string value neither loses nor changes any of its bytes.
    #[verifier::rlimit(40)]
    pub proof fn lemma_read_chars_keeps_bytes(self, limit: nat)
        requires
            self.reader.scan.value is None,
            !self.reached_end,
            self.overflow.len() == 0 || self.bytes.len() >= limit,
            self.bytes.len() <= limit,
        ensures
            ({
                let (next, outcome) = self.read_chars(limit);
                &&& !(outcome is Failed) ==> next.all_bytes() == self.all_bytes()
                &&& !(outcome is Failed) ==> next.reader_behind() == self.reader_behind()
                &&& outcome is Ready ==> next.reached_end || next.bytes.len() >= limit
                &&& next.reached_end ==> next.overflow.len() == 0
                    && self.reader.scan.string_stop().1 == StringEnd::Quote
            }),
        decreases self.reader.scan.pending.bytes.len(),
    {
        if self.bytes.len() < limit {
            let pending = self.reader.scan.pending;
            let char = pending.string_char().bytes(pending);
            self.reader.scan.lemma_string_step();
            self.reader.scan.lemma_string_bytes_step();
            let (scan, end) = self.reader.scan.string_step();
            let reader = ReaderModel { scan, ..self.reader };
            let read = StringReading { reader, ..self };
            if end is None {
                let next = read.given(char, limit);
                read.lemma_given(char, limit);
                next.lemma_read_chars_keeps_bytes(limit);
                assert(self.all_bytes() =~= self.bytes + char + scan.string_bytes());
                assert(next.all_bytes() =~= self.bytes + char + scan.string_bytes());
                assert(self.read_chars(limit) == next.read_chars(limit));
                assert(next.reader_behind() == self.reader_behind());
            } else if end == Some(StringEnd::Quote) {
                assert(scan.with_value(None) == scan);
                let next = self.read_chars(limit).0;
                assert(next.all_bytes() =~= self.all_bytes());
            } else if end == Some(StringEnd::NeedsInput) {
                let next = self.read_chars(limit).0;
                assert(next.all_bytes() =~= self.all_bytes());
            }
        }
    }

    /// However a string value is read in a streaming way, exactly its bytes are handed out, in
    /// order, and the JSON reader ends up behind the value: a single `read` keeps
    /// the bytes which were or are still going to be handed out, and when the end has been
    /// reached nothing is left.
    pub proof fn law_read_keeps_bytes(self, limit: nat)
        requires
            self.reached_end || self.is_active(),
            self.reached_end ==> self.overflow.len() == 0,
            self.bytes.len() <= limit,
        ensures
            ({
                let (next, outcome) = self.read(limit);
                &&& !(outcome is Failed) ==> next.all_bytes() == self.all_bytes()
                &&& !(outcome is Failed) ==> next.reader_behind() == self.reader_behind()
                &&& outcome is Ready ==> next.reached_end || next.bytes.len() == limit
                &&& next.reached_end ==> next.all_bytes() == next.bytes
            }),
    {
        if self.reached_end || self.bytes.len() >= limit {
            if self.reached_end {
                assert(self.all_bytes() =~= self.bytes);
            }
        } else {
            let given = self.given(self.overflow, limit);
            self.lemma_given(self.overflow, limit);
            given.lemma_read_chars_keeps_bytes(limit);
            given.lemma_read_chars(limit);
            assert(given.all_bytes() =~= self.all_bytes());
            let next = self.read(limit).0;
            if next.reached_end {
                assert(next.all_bytes() =~= next.bytes);
            }
        }
    }

    proof fn lemma_read_chars_extended(self, limit: nat, bytes: Seq<u8>, eof: bool)
        requires
            !self.reader.scan.pending.eof,
        ensures
            ({
                let (next, outcome) = self.read_chars(limit);
                let whole = self.extended(bytes, eof).read_chars(limit);
                if outcome is NeedsInput {
                    next.extended(bytes, eof).read_chars(limit) == whole
                } else {
                    whole == (next.extended(bytes, eof), outcome)
                }
            }),
        decreases self.reader.scan.pending.bytes.len(),
    {
        if self.bytes.len() < limit {
            let pending = self.reader.scan.pending;
            let char = pending.string_char().bytes(pending);
            self.reader.scan.lemma_string_step();
            self.reader.scan.lemma_string_step_extended(bytes, eof);
            self.reader.scan.extended(bytes, eof).lemma_string_step();
            let (scan, end) = self.reader.scan.string_step();
            let reader = ReaderModel { scan, ..self.reader };
            let read = StringReading { reader, ..self };
            if end is None {
                pending.lemma_string_char_extended(bytes, eof);
                let next = read.given(char, limit);
                assert(read.extended(bytes, eof).given(char, limit) == next.extended(bytes, eof));
                next.lemma_read_chars_extended(limit, bytes, eof);
            } else if end == Some(StringEnd::Quote) {
                scan.pending.lemma_ahead_extended(bytes, eof);
                assert(scan.pending.extended(bytes, eof).after(1) == scan.pending.after(1).extended(
                    bytes,
                    eof,
                ));
            }
        }
    }

    /// Reading a string value in a streaming way does not depend on how the data is divided into
    /// pieces.
    pub proof fn law_read_of_pieces(self, limit: nat, bytes: Seq<u8>, eof: bool)
        requires
            self.reached_end || self.is_active(),
            self.bytes.len() <= limit,
            !self.reader.scan.pending.eof,
        ensures
            ({
                let (next, outcome) = self.read(limit);
                let whole = self.extended(bytes, eof).read(limit);
                if outcome is NeedsInput {
                    next.extended(bytes, eof).read(limit) == whole
                } else {
                    whole == (next.extended(bytes, eof), outcome)
                }
            }),
    {
        if !self.reached_end && self.bytes.len() < limit {
            let given = self.given(self.overflow, limit);
            self.lemma_given(self.overflow, limit);
            given.lemma_read_chars_extended(limit, bytes, eof);
            assert(self.extended(bytes, eof).given(self.overflow, limit) == given.extended(
                bytes,
                eof,
            ));
            let (next, outcome) = given.read_chars(limit);
            if outcome is NeedsInput {
                given.lemma_read_chars_needs_input(limit);
                let resumed = next.extended(bytes, eof);
                assert(resumed.given(resumed.overflow, limit) =~= resumed);
            }
        }
    }

    proof fn lemma_read_chars_needs_input(self, limit: nat)
        requires
            self.bytes.len() <= limit,
            self.overflow.len() == 0 || self.bytes.len() == limit,
            !self.reached_end,
            self.read_chars(limit).1 is NeedsInput,
        ensures
            ({
                let next = self.read_chars(limit).0;
                &&& next.bytes.len() < limit
                &&& next.overflow.len() == 0
                &&& !next.reached_end
            }),
        decreases self.reader.scan.pending.bytes.len(),
    {
        let pending = self.reader.scan.pending;
        let char = pending.string_char().bytes(pending);
        self.reader.scan.lemma_string_step();
        let (scan, end) = self.reader.scan.string_step();
        let read = StringReading { reader: ReaderModel { scan, ..self.reader }, ..self };
        if end is None {
            read.lemma_given(char, limit);
            read.given(char, limit).lemma_read_chars_needs_input(limit);
        }
    }
}

impl ReaderModel {
    /// Reading a string value in a streaming way and at once agree: the bytes which are handed
    /// out are those of the string, and the reader ends up in the same state.
    pub proof fn law_string_reader_agrees(self)
        requires
            self.valid(),
            self.ongoing is None,
            self.misuse(Operation::NextStringReader) is None,
        ensures
            self.next_string_reader().1 is Ready ==> {
                let streaming = StringReading {
                    reader: self.next_string_reader().0,
                    overflow: Seq::empty(),
                    reached_end: false,
                    bytes: Seq::empty(),
                };
                let (behind, outcome) = self.next_string();
                &&& streaming.is_active()
                &&& outcome is Ready <==> streaming.reader.scan.string_stop().1 == StringEnd::Quote
                &&& outcome matches Outcome::Ready(text) ==> {
                    &&& text == decode_utf8(streaming.all_bytes())
                    &&& behind == streaming.reader_behind()
                }
            },
    {
        self.lemma_ready(Operation::NextStringReader);
        self.lemma_next_string_reader();
        let m = self.picked_up();
        m.lemma_start_value(ValueType::String, false);
        let (next, outcome) = m.start_value(ValueType::String, false);
        if outcome is Ready {
            let reading = next.reading(Doing::ReadingString, true);
            reading.scan.lemma_string_bytes();
            assert(next.scan.with_value(Some(Seq::empty())) == reading.scan);
            assert(next.scan.with_value(None) == reading.scan.with_value(None));
            assert(Seq::<u8>::empty() + next.scan.string_bytes() =~= next.scan.string_bytes());
            let streaming = StringReading {
                reader: self.next_string_reader().0,
                overflow: Seq::empty(),
                reached_end: false,
                bytes: Seq::empty(),
            };
            assert(streaming.all_bytes() =~= next.scan.string_bytes());
            assert(streaming.reader == ReaderModel { string_reader_active: true, ..next });
            assert(streaming.is_active());
            let (stop, end) = next.scan.string_stop();
            assert(reading.scan.read_string().1 == end);
            assert(reading.scan.read_string().0 == stop.with_value(Some(next.scan.string_bytes())));
            assert(self.next_string() == ReaderModel::concluded(
                Operation::NextString,
                reading.continue_string(),
            ));
            if end == StringEnd::Quote {
                let closed = ReaderModel {
                    scan: stop.with_value(Some(next.scan.string_bytes())),
                    ..reading
                };
                assert(self.next_string().0 == closed.string_closed().value_ended());
                assert(closed.string_closed().scan == stop.consumed(1, 1)) by {
                    next.scan.with_value(None).lemma_read_string();
                }
                assert(closed.string_closed().value_ended() =~= streaming.reader_behind());
            }
        }
    }

    /// The pieces in which a string value is transferred to a writer make up the string, of which
    /// the text is the concatenation of theirs.
    pub proof fn law_transferred_pieces(self)
        requires
            self.valid(),
            self.ongoing == Some(Operation::TransferTo),
            self.doing is TransferringString,
            self.scan.read_string().1 == StringEnd::Quote,
        ensures
            ({
                let whole = decode_utf8(self.scan.read_string().0.value->0);
                let (next, outcome) = self.transfer_next();
                &&& outcome matches Outcome::Ready(Transferred::StringPiece { text, last })
                &&& if last {
                    whole == text
                } else {
                    &&& next.doing is TransferringString
                    &&& next.scan.read_string().1 == StringEnd::Quote
                    &&& whole == text + decode_utf8(next.scan.read_string().0.value->0)
                }
            }),
    {
        let m = self.picked_up();
        reveal(ReaderModel::transfer_any);
        assert(m.transfer_any() == m.transfer_piece());
        m.scan.lemma_read_piece();
        m.scan.lemma_read_piece_is_prefix();
        let (scan, end) = m.scan.read_piece();
        if end is None {
            let value = scan.value->0;
            let next = scan.with_value(Some(Seq::empty()));
            scan.lemma_string_bytes();
            next.lemma_string_bytes();
            assert(scan.with_value(None) == next.with_value(None));
            assert(scan.with_value(Some(Seq::empty())) == next.with_value(Some(Seq::empty())));
            assert(Seq::<u8>::empty() + next.string_bytes() =~= next.string_bytes());
            crate::utf8::lemma_decode_concat(value, next.string_bytes());
        }
    }
}

impl ScanState {
    /// Reading a piece of a string first makes no difference.
    pub proof fn lemma_read_piece_is_prefix(self)
        requires
            self.value is Some,
            self.value->0.len() <= 64,
        ensures
            ({
                let (next, end) = self.read_piece();
                &&& end is None ==> next.read_string() == self.read_string()
                &&& end matches Some(end) ==> self.read_string() == (next, end)
            }),
        decreases self.pending.bytes.len(),
    {
        self.lemma_string_step();
        self.pending.lemma_string_char();
        if self.value->0.len() <= crate::traversal::PIECE_LIMIT {
            let (next, end) = self.string_step();
            if end is None {
                next.lemma_read_piece_is_prefix();
            }
        }
    }
}

// ---- Borrowed and owned texts ----

impl Stop {
    /// Whether an operation stopped for the same reason: with an error of the same kind at the same
    /// location, or because it needs more data.
    pub open spec fn is_like(self, other: Stop) -> bool {
        match (self, other) {
            (Stop::NeedsInput, Stop::NeedsInput) => true,
            (Stop::Error(error), Stop::Error(other)) => error@ == other@,
            _ => false,
        }
    }
}

/// Whether a borrowed and an owned result agree: both are the same text, or both tell that the
/// operation stopped for the same reason.
pub open spec fn agree(borrowed: Result<&str, Stop>, owned: Result<String, Stop>) -> bool {
    match (borrowed, owned) {
        (Ok(borrowed), Ok(owned)) => borrowed@ == owned@,
        (Err(borrowed), Err(owned)) => borrowed.is_like(owned),
        _ => false,
    }
}

impl ReaderModel {
    /// Whether a call of an operation with the given meaning led to the state and had the borrowed
    /// result.
    pub open spec fn returns_borrowed(
        meaning: (ReaderModel, Outcome<Seq<char>>),
        behind: ReaderModel,
        result: Result<&str, Stop>,
    ) -> bool {
        behind == meaning.0 && meaning.1.is_str(result)
    }

    /// As [`returns_borrowed`](Self::returns_borrowed), for an owned result.
    pub open spec fn returns_owned(
        meaning: (ReaderModel, Outcome<Seq<char>>),
        behind: ReaderModel,
        result: Result<String, Stop>,
    ) -> bool {
        behind == meaning.0 && meaning.1.is_string(result)
    }

    /// Whether a member name, a string or a number is read as borrowed or as owned text makes no
    /// difference: the results agree, and the reader ends up in the same state. `borrowed` and
    /// `owned` are the states and results of two calls.
    pub proof fn law_borrowed_agrees_with_owned(
        self,
        operation: Operation,
        borrowed: (ReaderModel, Result<&str, Stop>),
        owned: (ReaderModel, Result<String, Stop>),
    )
        requires
            match operation {
                Operation::NextName => {
                    &&& ReaderModel::returns_borrowed(self.next_name(), borrowed.0, borrowed.1)
                    &&& ReaderModel::returns_owned(self.next_name(), owned.0, owned.1)
                },
                Operation::NextString => {
                    &&& ReaderModel::returns_borrowed(self.next_string(), borrowed.0, borrowed.1)
                    &&& ReaderModel::returns_owned(self.next_string(), owned.0, owned.1)
                },
                Operation::NextNumber => {
                    &&& ReaderModel::returns_borrowed(self.next_number(), borrowed.0, borrowed.1)
                    &&& ReaderModel::returns_owned(self.next_number(), owned.0, owned.1)
                },
                _ => false,
            },
        ensures
            borrowed.0 == owned.0,
            agree(borrowed.1, owned.1),
    {
    }
}

} // verus!
