//! What scanning whitespace, comments, strings and numbers means.

use vstd::prelude::*;
use vstd::utf8::*;

use crate::ascii;
use crate::error::{Rejection, SyntaxErrorKind};
use crate::lookahead::{Ahead, NextChar, Pending};
use crate::number::{NumberEnd, NumberProgress, NumberStep};
use crate::position::Spot;

verus! {

/// Where scanning of the gap between two tokens stands. A gap consists of whitespace and
/// comments.
#[derive(Debug, Clone, Copy, PartialEq, Eq, Structural)]
pub enum Gap {
    /// No gap is being scanned.
    Outside,
    /// Within whitespace; `after_cr` tells whether the previous byte was a carriage return.
    Blank { after_cr: bool },
    /// Within an end of line comment.
    LineComment,
    /// Within a block comment; `after_cr` tells whether the previous byte was a carriage return.
    BlockComment { after_cr: bool },
}

/// How scanning of a gap ended.
#[derive(Debug, Clone, Copy, PartialEq, Eq, Structural)]
pub enum GapEnd {
    /// The gap is followed by this byte, which was not consumed.
    Byte(u8),
    /// The data ends behind the gap.
    Eof,
    NeedsInput,
    Rejected(Rejection),
}

/// How reading of string characters ended.
#[derive(Debug, Clone, Copy, PartialEq, Eq, Structural)]
pub enum StringEnd {
    /// The closing double quote follows; it was not consumed.
    Quote,
    NeedsInput,
    Rejected(Rejection),
}

/// Unconsumed data, the value which is being read, and the place of the reader.
#[verifier::ext_equal]
pub struct ScanState {
    pub pending: Pending,
    pub value: Option<Seq<u8>>,
    pub spot: Spot,
    pub gap: Gap,
}

impl Spot {
    /// The place behind a byte of whitespace or a byte of a comment.
    pub open spec fn past(self, byte: u8, after_cr: bool) -> Spot {
        if byte == ascii::LINE_FEED {
            // Count \r\n (Windows line break) as only one line break
            if after_cr {
                self.moved(0, 1)
            } else {
                self.next_line()
            }
        } else if byte == ascii::CARRIAGE_RETURN {
            self.next_line()
        } else {
            self.moved(1, 1)
        }
    }

    /// Line and column never exceed the byte position.
    pub open spec fn sound(self) -> bool {
        self.line <= self.byte_pos && self.column <= self.byte_pos
    }
}

impl ScanState {
    /// The number of bytes up to the end of the available data.
    pub open spec fn total(self) -> nat {
        self.spot.byte_pos + self.pending.bytes.len()
    }

    /// The start of the data.
    pub open spec fn start() -> ScanState {
        ScanState {
            pending: Pending { bytes: Seq::empty(), eof: false },
            value: None,
            spot: Spot::start(),
            gap: Gap::Outside,
        }
    }

    pub open spec fn sound(self) -> bool {
        self.spot.sound()
    }

    /// Scanning of a gap or reading of a value is given up.
    pub open spec fn settled(self) -> ScanState {
        ScanState { value: None, gap: Gap::Outside, ..self }
    }

    /// The number of bytes which the place moves by when the data breaks off here: the start of a
    /// comment, and an asterisk within a block comment, count although the next byte is unknown.
    pub open spec fn counted_at_break(self) -> nat {
        let mark = if self.gap is BlockComment {
            ascii::STAR
        } else {
            ascii::SLASH
        };
        if self.pending.bytes == seq![mark] {
            1
        } else {
            0
        }
    }

    /// The data breaks off: all of what was received has been consumed.
    pub open spec fn broken_off(self) -> ScanState {
        let count = self.counted_at_break();
        ScanState {
            pending: self.pending.after(self.pending.bytes.len() as int),
            spot: self.spot.moved(count, count),
            ..self
        }
    }

    pub open spec fn with_gap(self, gap: Gap) -> ScanState {
        ScanState { gap, ..self }
    }

    /// Some bytes are consumed without changing the place.
    pub open spec fn dropped(self, count: int) -> ScanState {
        ScanState { pending: self.pending.after(count), ..self }
    }

    /// Some bytes are consumed which take up the given number of columns.
    pub open spec fn consumed(self, count: nat, columns: nat) -> ScanState {
        ScanState {
            pending: self.pending.after(count as int),
            spot: self.spot.moved(columns, count),
            ..self
        }
    }

    /// More data is available.
    pub open spec fn extended(self, bytes: Seq<u8>, eof: bool) -> ScanState {
        ScanState { pending: self.pending.extended(bytes, eof), ..self }
    }

    // ---- Gaps ----

    /// One step of scanning a gap, within whitespace.
    pub open spec fn blank_step(self, after_cr: bool, allow_comments: bool) -> (
        ScanState,
        Option<GapEnd>,
    ) {
        let waiting = self.with_gap(Gap::Blank { after_cr });
        let left = self.with_gap(Gap::Outside);
        match self.pending.ahead(0) {
            Ahead::Missing => (waiting, Some(GapEnd::NeedsInput)),
            Ahead::Ended => (left, Some(GapEnd::Eof)),
            Ahead::Byte(byte) => if ascii::is_blank(byte) {
                (
                    ScanState {
                        pending: self.pending.after(1),
                        spot: self.spot.past(byte, after_cr),
                        gap: Gap::Blank { after_cr: byte == ascii::CARRIAGE_RETURN },
                        ..self
                    },
                    None,
                )
            } else if byte != ascii::SLASH {
                (left, Some(GapEnd::Byte(byte)))
            } else if !allow_comments {
                (
                    left,
                    Some(GapEnd::Rejected(Rejection::Syntax(SyntaxErrorKind::CommentsNotEnabled))),
                )
            } else {
                let incomplete = Some(
                    GapEnd::Rejected(Rejection::Syntax(SyntaxErrorKind::IncompleteComment)),
                );
                match self.pending.ahead(1) {
                    Ahead::Missing => (waiting, Some(GapEnd::NeedsInput)),
                    Ahead::Ended => (left.consumed(1, 1), incomplete),
                    Ahead::Byte(byte1) => if byte1 == ascii::STAR {
                        (
                            self.consumed(2, 2).with_gap(Gap::BlockComment { after_cr: false }),
                            None,
                        )
                    } else if byte1 == ascii::SLASH {
                        (self.consumed(2, 2).with_gap(Gap::LineComment), None)
                    } else {
                        (left.consumed(1, 1).dropped(1), incomplete)
                    },
                }
            },
        }
    }

    /// One step within a comment, over a char which has no meaning there.
    pub open spec fn comment_char(self, byte: u8, after_cr: bool, inside: Gap) -> (
        ScanState,
        Option<GapEnd>,
    ) {
        if byte < 0x80 {
            (
                ScanState {
                    pending: self.pending.after(1),
                    spot: self.spot.past(byte, after_cr),
                    gap: inside,
                    ..self
                },
                None,
            )
        } else {
            match self.pending.multibyte_char() {
                NextChar::Rejected { rejection, consumed } => (
                    self.dropped(consumed as int).with_gap(Gap::Outside),
                    Some(GapEnd::Rejected(rejection)),
                ),
                NextChar::Plain { len } => (self.consumed(len as nat, 1).with_gap(inside), None),
                _ => (self, Some(GapEnd::NeedsInput)),
            }
        }
    }

    /// One step of scanning a gap, within an end of line comment.
    pub open spec fn line_comment_step(self, allow_comments: bool) -> (ScanState, Option<GapEnd>) {
        match self.pending.ahead(0) {
            Ahead::Missing => (self, Some(GapEnd::NeedsInput)),
            Ahead::Ended => (self.with_gap(Gap::Outside), Some(GapEnd::Eof)),
            Ahead::Byte(byte) => if byte == ascii::LINE_FEED || byte == ascii::CARRIAGE_RETURN {
                self.blank_step(false, allow_comments)
            } else {
                self.comment_char(byte, false, Gap::LineComment)
            },
        }
    }

    /// One step of scanning a gap, within a block comment.
    pub open spec fn block_comment_step(self, after_cr: bool) -> (ScanState, Option<GapEnd>) {
        let not_closed = Some(
            GapEnd::Rejected(Rejection::Syntax(SyntaxErrorKind::BlockCommentNotClosed)),
        );
        match self.pending.ahead(0) {
            Ahead::Missing => (self, Some(GapEnd::NeedsInput)),
            Ahead::Ended => (self.with_gap(Gap::Outside), not_closed),
            Ahead::Byte(byte) => if byte != ascii::STAR {
                self.comment_char(
                    byte,
                    after_cr,
                    Gap::BlockComment { after_cr: byte == ascii::CARRIAGE_RETURN },
                )
            } else {
                match self.pending.ahead(1) {
                    Ahead::Missing => (self, Some(GapEnd::NeedsInput)),
                    Ahead::Ended => (self.consumed(1, 1).with_gap(Gap::Outside), not_closed),
                    Ahead::Byte(byte1) => if byte1 == ascii::SLASH {
                        (self.consumed(2, 2).with_gap(Gap::Blank { after_cr: false }), None)
                    } else {
                        (
                            self.consumed(1, 1).with_gap(Gap::BlockComment { after_cr: false }),
                            None,
                        )
                    },
                }
            },
        }
    }

    /// One step of scanning a gap.
    pub open spec fn gap_step(self, allow_comments: bool) -> (ScanState, Option<GapEnd>) {
        match self.gap {
            Gap::Outside => self.blank_step(false, allow_comments),
            Gap::Blank { after_cr } => self.blank_step(after_cr, allow_comments),
            Gap::LineComment => self.line_comment_step(allow_comments),
            Gap::BlockComment { after_cr } => self.block_comment_step(after_cr),
        }
    }

    /// Scanning a gap up to its end.
    pub open spec fn skip_gap(self, allow_comments: bool) -> (ScanState, GapEnd)
        decreases self.pending.bytes.len(),
    {
        let (next, end) = self.gap_step(allow_comments);
        match end {
            Some(end) => (next, end),
            None => if next.pending.bytes.len() < self.pending.bytes.len() {
                next.skip_gap(allow_comments)
            } else {
                (next, GapEnd::NeedsInput)
            },
        }
    }

    /// Each step of scanning a gap consumes data or ends the scan.
    pub proof fn lemma_gap_step(self, allow_comments: bool)
        ensures
            ({
                let (next, end) = self.gap_step(allow_comments);
                &&& end is None ==> next.pending.bytes.len() < self.pending.bytes.len()
                &&& next.pending.bytes.len() <= self.pending.bytes.len()
                &&& next.total() <= self.total()
                &&& next.spot.byte_pos >= self.spot.byte_pos
                &&& next.pending.eof == self.pending.eof
                &&& next.value == self.value
                &&& self.sound() ==> next.sound()
                &&& !(end matches Some(GapEnd::Rejected(_))) ==> next.total() == self.total()
                &&& end matches Some(end) ==> end != GapEnd::NeedsInput ==> next.gap is Outside
                &&& end matches Some(GapEnd::NeedsInput) ==> {
                    &&& !self.pending.eof
                    &&& next.pending.bytes.len() <= 3
                }
                &&& end matches Some(GapEnd::Byte(byte)) ==> {
                    &&& next.pending.ahead(0) == Ahead::Byte(byte)
                    &&& !ascii::is_blank(byte)
                    &&& byte != ascii::SLASH
                }
            }),
    {
        if let Ahead::Byte(byte) = self.pending.ahead(0) {
            if byte >= 0x80 {
                self.pending.lemma_multibyte_char();
            }
        }
    }

    /// What holds at the end of a gap.
    pub proof fn lemma_skip_gap(self, allow_comments: bool)
        ensures
            ({
                let (next, end) = self.skip_gap(allow_comments);
                &&& next.pending.bytes.len() <= self.pending.bytes.len()
                &&& next.total() <= self.total()
                &&& next.spot.byte_pos >= self.spot.byte_pos
                &&& next.pending.eof == self.pending.eof
                &&& next.value == self.value
                &&& self.sound() ==> next.sound()
                &&& !(end is Rejected) ==> next.total() == self.total()
                &&& end != GapEnd::NeedsInput ==> next.gap is Outside
                &&& end == GapEnd::NeedsInput ==> {
                    &&& !self.pending.eof
                    &&& next.pending.bytes.len() <= 3
                }
                &&& end matches GapEnd::Byte(byte) ==> {
                    &&& next.pending.ahead(0) == Ahead::Byte(byte)
                    &&& !ascii::is_blank(byte)
                    &&& byte != ascii::SLASH
                }
            }),
        decreases self.pending.bytes.len(),
    {
        self.lemma_gap_step(allow_comments);
        let (next, end) = self.gap_step(allow_comments);
        if end is None {
            next.lemma_skip_gap(allow_comments);
        }
    }

    // ---- Strings ----

    /// Bytes are added to the value, if one is being read.
    pub open spec fn with_bytes(self, bytes: Seq<u8>) -> ScanState {
        ScanState {
            value: match self.value {
                Some(value) => Some(value + bytes),
                None => None,
            },
            ..self
        }
    }

    /// One step of reading string characters.
    pub open spec fn string_step(self) -> (ScanState, Option<StringEnd>) {
        let next = self.pending.string_char();
        match next {
            NextChar::NeedsInput => (self, Some(StringEnd::NeedsInput)),
            NextChar::Rejected { rejection, consumed } => (
                self.dropped(consumed as int),
                Some(StringEnd::Rejected(rejection)),
            ),
            NextChar::Quote => (self, Some(StringEnd::Quote)),
            _ => (
                self.with_bytes(next.bytes(self.pending)).consumed(
                    next.source_len() as nat,
                    next.columns(),
                ),
                None,
            ),
        }
    }

    /// Reading string characters up to the closing double quote.
    pub open spec fn read_string(self) -> (ScanState, StringEnd)
        decreases self.pending.bytes.len(),
    {
        let (next, end) = self.string_step();
        match end {
            Some(end) => (next, end),
            None => if next.pending.bytes.len() < self.pending.bytes.len() {
                next.read_string()
            } else {
                (next, StringEnd::NeedsInput)
            },
        }
    }

    /// Each step of reading string characters consumes data or ends the string.
    pub proof fn lemma_string_step(self)
        ensures
            ({
                let (next, end) = self.string_step();
                &&& end is None ==> next.pending.bytes.len() < self.pending.bytes.len()
                &&& next.pending.bytes.len() <= self.pending.bytes.len()
                &&& next.total() <= self.total()
                &&& next.spot.byte_pos >= self.spot.byte_pos
                &&& next.pending.eof == self.pending.eof
                &&& next.gap == self.gap
                &&& self.sound() ==> next.sound()
                &&& next.value is Some <==> self.value is Some
                &&& self.has_valid_value() ==> next.has_valid_value()
                &&& !(end matches Some(StringEnd::Rejected(_))) ==> next.total() == self.total()
                &&& end == Some(StringEnd::Quote) ==> next.pending.ahead(0) == Ahead::Byte(
                    ascii::QUOTE,
                )
                &&& end == Some(StringEnd::NeedsInput) ==> {
                    &&& !self.pending.eof
                    &&& next.pending.bytes.len() <= 11
                }
            }),
    {
        self.pending.lemma_string_char();
        let char = self.pending.string_char();
        if let Some(value) = self.value {
            if valid_utf8(value) {
                valid_utf8_concat(value, char.bytes(self.pending));
            }
        }
    }

    /// The bytes of the value, if one is being read, are valid UTF-8.
    pub open spec fn has_valid_value(self) -> bool {
        self.value matches Some(value) ==> valid_utf8(value)
    }

    /// What holds at the end of a string.
    pub proof fn lemma_read_string(self)
        ensures
            ({
                let (next, end) = self.read_string();
                &&& next.pending.bytes.len() <= self.pending.bytes.len()
                &&& next.total() <= self.total()
                &&& next.spot.byte_pos >= self.spot.byte_pos
                &&& next.pending.eof == self.pending.eof
                &&& next.gap == self.gap
                &&& self.sound() ==> next.sound()
                &&& next.value is Some <==> self.value is Some
                &&& self.has_valid_value() ==> next.has_valid_value()
                &&& !(end is Rejected) ==> next.total() == self.total()
                &&& end == StringEnd::Quote ==> next.pending.ahead(0) == Ahead::Byte(ascii::QUOTE)
                &&& end == StringEnd::NeedsInput ==> {
                    &&& !self.pending.eof
                    &&& next.pending.bytes.len() <= 11
                }
            }),
        decreases self.pending.bytes.len(),
    {
        self.lemma_string_step();
        let (next, end) = self.string_step();
        if end is None {
            next.lemma_read_string();
        }
    }

    // ---- Numbers ----

    /// Reading the bytes of a number, without changing the place.
    pub open spec fn read_number(self, progress: NumberProgress) -> (
        ScanState,
        NumberProgress,
        NumberEnd,
    )
        decreases self.pending.bytes.len(),
    {
        match self.pending.ahead(0) {
            Ahead::Missing => (self, progress, NumberEnd::NeedsInput),
            Ahead::Ended => (self, progress, progress.part.at_eof()),
            Ahead::Byte(byte) => match progress.part.step(byte) {
                NumberStep::Consume(part) => self.with_bytes(seq![byte]).dropped(1).read_number(
                    progress.advanced(byte, part),
                ),
                NumberStep::End => (self, progress, NumberEnd::Complete),
                NumberStep::Malformed => (self, progress, NumberEnd::Malformed),
            },
        }
    }

    /// What holds at the end of a number.
    pub proof fn lemma_read_number(self, progress: NumberProgress)
        requires
            progress.sound(),
        ensures
            ({
                let (next, advanced, end) = self.read_number(progress);
                &&& advanced.sound()
                &&& next.pending.bytes.len() <= self.pending.bytes.len()
                &&& next.total() + advanced.len == self.total() + progress.len
                &&& next.pending.eof == self.pending.eof
                &&& next.gap == self.gap
                &&& next.spot == self.spot
                &&& next.value is Some <==> self.value is Some
                &&& self.has_valid_value() ==> next.has_valid_value()
                &&& end == NumberEnd::Complete ==> advanced.part.can_end()
                &&& advanced.len >= progress.len
                &&& advanced.len == progress.len ==> advanced.part == progress.part
                &&& end == NumberEnd::NeedsInput ==> {
                    &&& !self.pending.eof
                    &&& next.pending.bytes.len() == 0
                }
            }),
        decreases self.pending.bytes.len(),
    {
        if let Ahead::Byte(byte) = self.pending.ahead(0) {
            if let NumberStep::Consume(part) = progress.part.step(byte) {
                let digit = seq![byte];
                assert(byte < 0x80);
                assert(byte & 0x7F <= 0x7F) by (bit_vector);
                crate::utf8::lemma_single_scalar_valid(digit);
                if let Some(value) = self.value {
                    if valid_utf8(value) {
                        valid_utf8_concat(value, digit);
                    }
                }
                self.with_bytes(digit).dropped(1).lemma_read_number(
                    progress.advanced(byte, part),
                );
            }
        }
    }
}

} // verus!
