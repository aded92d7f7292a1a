//! Scanning of whitespace, comments, strings and numbers.

use vstd::prelude::*;
use vstd::utf8::*;

use crate::ascii;
use crate::buffer::{BytesValue, InputBuffer, READER_BUF_SIZE};
use crate::error::{Rejection, SyntaxErrorKind};
use crate::lookahead::{Ahead, NextChar};
use crate::number::{NumberEnd, NumberState, NumberStep};
use crate::position::Location;
use crate::scan::{Gap, GapEnd, ScanState, StringEnd};
use crate::token::{Context, PeekedValue, Token};
use crate::utf8;

verus! {

/// Received data and the place up to which it was processed.
#[derive(Debug)]
pub struct Scanner {
    input: InputBuffer,
    location: Location,
    gap: Gap,
}

/// Whether a byte may directly follow a literal or a number.
pub fn verify_value_separator(byte: u8) -> (result: bool)
    ensures
        result == ascii::is_separator(byte),
{
    match byte {
        // Note: Also has ':' even though that is not a valid value separator to get more accurate errors
        ascii::COMMA
        | ascii::CLOSE_BRACKET
        | ascii::CLOSE_BRACE
        | ascii::SPACE
        | ascii::TAB
        | ascii::LINE_FEED
        | ascii::CARRIAGE_RETURN
        | ascii::SLASH
        | ascii::COLON => true,
        _ => false,
    }
}

impl View for Scanner {
    type V = ScanState;

    closed spec fn view(&self) -> ScanState {
        ScanState {
            pending: self.input.pending(),
            value: self.input.value(),
            spot: self.location@,
            gap: self.gap,
        }
    }
}

impl Scanner {
    pub closed spec fn wf(self) -> bool {
        &&& self.input.wf()
        &&& self@.sound()
        &&& self@.total() <= u64::MAX
    }

    /// The bytes of a completely read value.
    pub closed spec fn bytes_of(self, value: BytesValue) -> Seq<u8> {
        self.input.bytes_of(value)
    }

    /// Whether the bytes of a value can be obtained.
    pub closed spec fn provides(self, value: BytesValue) -> bool {
        self.input.provides(value)
    }

    pub proof fn lemma_wf(self)
        requires
            self.wf(),
        ensures
            self@.sound(),
            self@.total() <= u64::MAX,
            self@.pending.bytes.len() <= READER_BUF_SIZE,
    {
        self.input.lemma_pending_len();
    }

    /// Creates a scanner at the start of the data.
    pub fn new() -> (result: Self)
        ensures
            result.wf(),
            result@ == ScanState::start(),
    {
        Scanner {
            input: InputBuffer::new(),
            location: Location { line: 0, column: 0, byte_pos: 0 },
            gap: Gap::Outside,
        }
    }

    /// Line, column and byte offset up to which the data was processed.
    pub fn location(&self) -> (result: Location)
        ensures
            result@ == self@.spot,
    {
        self.location
    }

    /// Whether no more data can be received.
    pub fn has_reached_eof(&self) -> (result: bool)
        ensures
            result == self@.pending.eof,
    {
        self.input.has_reached_eof()
    }

    /// The number of available bytes.
    pub fn available(&self) -> (count: usize)
        requires
            self.wf(),
        ensures
            count == self@.pending.bytes.len(),
    {
        self.input.available()
    }

    /// The available bytes.
    pub fn content(&self) -> (bytes: &[u8])
        requires
            self.wf(),
        ensures
            bytes@ == self@.pending.bytes,
    {
        self.input.content()
    }

    /// Adds received data.
    pub fn receive(&mut self, data: &[u8])
        requires
            old(self).wf(),
            old(self)@.pending.bytes.len() + data@.len() <= READER_BUF_SIZE,
            old(self)@.total() + data@.len() <= u64::MAX,
        ensures
            final(self).wf(),
            final(self)@ == old(self)@.extended(data@, old(self)@.pending.eof),
    {
        self.input.receive(data);
    }

    /// Records that no more data follows.
    pub fn mark_eof(&mut self)
        requires
            old(self).wf(),
        ensures
            final(self).wf(),
            final(self)@ == old(self)@.extended(Seq::empty(), true),
    {
        self.input.mark_eof();
        assert(self@ =~= old(self)@.extended(Seq::empty(), true));
    }

    /// Peeks at a byte without consuming it.
    pub fn ahead(&self, distance: usize) -> (result: Ahead)
        requires
            self.wf(),
        ensures
            result == self@.pending.ahead(distance as int),
    {
        self.input.ahead(distance)
    }

    /// Consumes bytes without changing the location.
    pub fn drop_bytes(&mut self, count: usize)
        requires
            old(self).wf(),
            count <= old(self)@.pending.bytes.len(),
        ensures
            final(self).wf(),
            final(self)@ == old(self)@.dropped(count as int),
    {
        self.input.skip(count);
    }

    /// Moves the location behind ASCII characters which were consumed before.
    pub fn advance(&mut self, count: u64)
        requires
            old(self).wf(),
            old(self)@.total() + count <= u64::MAX,
        ensures
            final(self).wf(),
            final(self)@ == (ScanState {
                spot: old(self)@.spot.moved(count as nat, count as nat),
                ..old(self)@
            }),
            forall|value: BytesValue| #[trigger]
                final(self).bytes_of(value) == old(self).bytes_of(value),
            forall|value: BytesValue| #[trigger]
                final(self).provides(value) == old(self).provides(value),
    {
        self.location.column = self.location.column + count;
        self.location.byte_pos = self.location.byte_pos + count;
    }

    /// Moves the location back to a previous one.
    pub fn move_back(&mut self, location: Location)
        requires
            old(self).wf(),
            location@.sound(),
            location@.byte_pos <= old(self)@.spot.byte_pos,
        ensures
            final(self).wf(),
            final(self)@ == (ScanState { spot: location@, ..old(self)@ }),
    {
        self.location = location;
    }

    /// Consumes all of the received data because no further data can be obtained.
    pub fn break_off(&mut self)
        requires
            old(self).wf(),
        ensures
            final(self).wf(),
            final(self)@ == old(self)@.broken_off(),
    {
        let available = self.available();
        let mark = match self.gap {
            Gap::BlockComment { .. } => ascii::STAR,
            _ => ascii::SLASH,
        };
        let counts = available == 1 && self.ahead(0) == Ahead::Byte(mark);
        assert(counts == (self@.pending.bytes =~= seq![mark]));
        self.drop_bytes(available);
        if counts {
            self.advance(1);
        }
    }

    /// Gives up scanning a gap or reading a value.
    pub fn settle(&mut self)
        requires
            old(self).wf(),
        ensures
            final(self).wf(),
            final(self)@ == old(self)@.settled(),
    {
        self.gap = Gap::Outside;
        self.input.discard_value();
    }

    // ---- Gaps ----

    /// Consumes a byte of a gap.
    fn pass_byte(&mut self, byte: u8, after_cr: bool, gap: Gap)
        requires
            old(self).wf(),
            old(self)@.pending.ahead(0) == Ahead::Byte(byte),
        ensures
            final(self).wf(),
            final(self)@ == (ScanState {
                pending: old(self)@.pending.after(1),
                spot: old(self)@.spot.past(byte, after_cr),
                gap,
                ..old(self)@
            }),
    {
        self.input.skip(1);
        match byte {
            ascii::LINE_FEED => {
                // Count \r\n (Windows line break) as only one line break
                if !after_cr {
                    self.location.column = 0;
                    self.location.line = self.location.line + 1;
                }
            },
            ascii::CARRIAGE_RETURN => {
                self.location.column = 0;
                self.location.line = self.location.line + 1;
            },
            _ => {
                self.location.column = self.location.column + 1;
            },
        }
        self.location.byte_pos = self.location.byte_pos + 1;
        self.gap = gap;
    }

    /// Consumes the bytes of a char of a gap which is no line break.
    fn pass_char(&mut self, len: usize, columns: u64, gap: Gap)
        requires
            old(self).wf(),
            columns <= len <= old(self)@.pending.bytes.len(),
        ensures
            final(self).wf(),
            final(self)@ == old(self)@.consumed(len as nat, columns as nat).with_gap(gap),
    {
        self.input.skip(len);
        self.location.column = self.location.column + columns;
        self.location.byte_pos = self.location.byte_pos + len as u64;
        self.gap = gap;
    }

    fn skip_blank(&mut self, after_cr: bool, allow_comments: bool) -> (result: Option<GapEnd>)
        requires
            old(self).wf(),
        ensures
            final(self).wf(),
            (final(self)@, result) == old(self)@.blank_step(after_cr, allow_comments),
    {
        let byte = match self.input.ahead(0) {
            Ahead::Missing => {
                self.gap = Gap::Blank { after_cr };
                return Some(GapEnd::NeedsInput);
            },
            Ahead::Ended => {
                self.gap = Gap::Outside;
                return Some(GapEnd::Eof);
            },
            Ahead::Byte(byte) => byte,
        };
        match byte {
            ascii::SPACE | ascii::TAB | ascii::LINE_FEED | ascii::CARRIAGE_RETURN => {
                self.pass_byte(
                    byte,
                    after_cr,
                    Gap::Blank { after_cr: byte == ascii::CARRIAGE_RETURN },
                );
                None
            },
            ascii::SLASH => {
                if !allow_comments {
                    self.gap = Gap::Outside;
                    return Some(
                        GapEnd::Rejected(Rejection::Syntax(SyntaxErrorKind::CommentsNotEnabled)),
                    );
                }
                match self.input.ahead(1) {
                    Ahead::Missing => {
                        self.gap = Gap::Blank { after_cr };
                        Some(GapEnd::NeedsInput)
                    },
                    Ahead::Ended => {
                        self.pass_char(1, 1, Gap::Outside);
                        Some(GapEnd::Rejected(Rejection::Syntax(SyntaxErrorKind::IncompleteComment)))
                    },
                    Ahead::Byte(ascii::STAR) => {
                        self.pass_char(2, 2, Gap::BlockComment { after_cr: false });
                        None
                    },
                    Ahead::Byte(ascii::SLASH) => {
                        self.pass_char(2, 2, Gap::LineComment);
                        None
                    },
                    Ahead::Byte(_) => {
                        self.pass_char(1, 1, Gap::Outside);
                        self.input.skip(1);
                        Some(GapEnd::Rejected(Rejection::Syntax(SyntaxErrorKind::IncompleteComment)))
                    },
                }
            },
            _ => {
                self.gap = Gap::Outside;
                Some(GapEnd::Byte(byte))
            },
        }
    }

    fn skip_comment_char(&mut self, byte: u8, after_cr: bool, inside: Gap) -> (result: Option<
        GapEnd,
    >)
        requires
            old(self).wf(),
            old(self)@.pending.ahead(0) == Ahead::Byte(byte),
        ensures
            final(self).wf(),
            (final(self)@, result) == old(self)@.comment_char(byte, after_cr, inside),
    {
        if utf8::is_1byte(byte) {
            self.pass_byte(byte, after_cr, inside);
            return None;
        }
        // Validate the UTF-8 data, but ignore it
        proof {
            self@.pending.lemma_multibyte_char();
        }
        match self.input.read_utf8_multibyte() {
            NextChar::Rejected { rejection, consumed } => {
                self.input.skip(consumed);
                self.gap = Gap::Outside;
                Some(GapEnd::Rejected(rejection))
            },
            NextChar::Plain { len } => {
                self.pass_char(len, 1, inside);
                None
            },
            _ => Some(GapEnd::NeedsInput),
        }
    }

    /// Continues an end of line comment.
    fn skip_to_line_end(&mut self, allow_comments: bool) -> (result: Option<GapEnd>)
        requires
            old(self).wf(),
        ensures
            final(self).wf(),
            (final(self)@, result) == old(self)@.line_comment_step(allow_comments),
    {
        match self.input.ahead(0) {
            Ahead::Missing => Some(GapEnd::NeedsInput),
            Ahead::Ended => {
                self.gap = Gap::Outside;
                Some(GapEnd::Eof)
            },
            Ahead::Byte(ascii::LINE_FEED) | Ahead::Byte(ascii::CARRIAGE_RETURN) => self.skip_blank(
                false,
                allow_comments,
            ),
            Ahead::Byte(byte) => self.skip_comment_char(byte, false, Gap::LineComment),
        }
    }

    /// Continues a block comment.
    fn skip_to_block_comment_end(&mut self, after_cr: bool) -> (result: Option<GapEnd>)
        requires
            old(self).wf(),
        ensures
            final(self).wf(),
            (final(self)@, result) == old(self)@.block_comment_step(after_cr),
    {
        match self.input.ahead(0) {
            Ahead::Missing => Some(GapEnd::NeedsInput),
            Ahead::Ended => {
                self.gap = Gap::Outside;
                Some(GapEnd::Rejected(Rejection::Syntax(SyntaxErrorKind::BlockCommentNotClosed)))
            },
            Ahead::Byte(ascii::STAR) => match self.input.ahead(1) {
                Ahead::Missing => Some(GapEnd::NeedsInput),
                Ahead::Ended => {
                    self.pass_char(1, 1, Gap::Outside);
                    Some(
                        GapEnd::Rejected(Rejection::Syntax(SyntaxErrorKind::BlockCommentNotClosed)),
                    )
                },
                Ahead::Byte(ascii::SLASH) => {
                    self.pass_char(2, 2, Gap::Blank { after_cr: false });
                    None
                },
                // Don't consume the byte behind the '*' yet, it might be the next '*', e.g.
                // for "/***/"
                Ahead::Byte(_) => {
                    self.pass_char(1, 1, Gap::BlockComment { after_cr: false });
                    None
                },
            },
            Ahead::Byte(byte) => self.skip_comment_char(
                byte,
                after_cr,
                Gap::BlockComment { after_cr: byte == ascii::CARRIAGE_RETURN },
            ),
        }
    }

    /// Skips whitespace and comments.
    pub fn skip_whitespace(&mut self, allow_comments: bool) -> (result: GapEnd)
        requires
            old(self).wf(),
        ensures
            final(self).wf(),
            (final(self)@, result) == old(self)@.skip_gap(allow_comments),
    {
        loop
            invariant
                self.wf(),
                self@.skip_gap(allow_comments) == old(self)@.skip_gap(allow_comments),
            decreases self@.pending.bytes.len(),
        {
            proof {
                self@.lemma_gap_step(allow_comments);
            }
            let end = match self.gap {
                Gap::Outside => self.skip_blank(false, allow_comments),
                Gap::Blank { after_cr } => self.skip_blank(after_cr, allow_comments),
                Gap::LineComment => self.skip_to_line_end(allow_comments),
                Gap::BlockComment { after_cr } => self.skip_to_block_comment_end(after_cr),
            };
            if let Some(end) = end {
                return end;
            }
        }
    }

    // ---- Tokens ----

    /// Decides whether a literal is next.
    fn consume_literal(&self, literal: PeekedValue, text: &[u8]) -> (result: Token)
        requires
            self.wf(),
            literal.is_literal(),
            text@ == literal.text(),
        ensures
            result == self@.pending.literal_token(literal),
    {
        let mut at: usize = 0;
        while at < text.len()
            invariant
                self.wf(),
                at <= text.len() <= 5,
                text@ == literal.text(),
                self@.pending.literal(text@, 0) == self@.pending.literal(text@, at as nat),
            decreases text.len() - at,
        {
            match self.ahead(at) {
                Ahead::Missing => return Token::NeedsInput,
                Ahead::Ended => return Token::Rejected {
                    rejection: Rejection::Syntax(SyntaxErrorKind::InvalidLiteral),
                    consumed: at,
                },
                Ahead::Byte(byte) => if byte != text[at] {
                    return Token::Rejected {
                        rejection: Rejection::Syntax(SyntaxErrorKind::InvalidLiteral),
                        consumed: at + 1,
                    };
                },
            }
            at += 1;
        }
        // Make sure there are no misleading chars directly afterwards, e.g. "truey"
        match self.ahead(at) {
            Ahead::Missing => Token::NeedsInput,
            Ahead::Ended => Token::Found(literal),
            Ahead::Byte(byte) => if verify_value_separator(byte) {
                Token::Found(literal)
            } else {
                Token::Rejected {
                    rejection: Rejection::Syntax(SyntaxErrorKind::TrailingDataAfterLiteral),
                    consumed: at,
                }
            },
        }
    }

    /// Decides which token starts with the byte that is next.
    pub fn token(&self, byte: u8, context: Context) -> (result: Token)
        requires
            self.wf(),
        ensures
            result == self@.pending.token(byte, context),
    {
        let unexpected = match context {
            Context::Name => match byte {
                ascii::CLOSE_BRACE => return Token::Found(PeekedValue::ObjectEnd),
                ascii::QUOTE => return Token::Found(PeekedValue::NameStart),
                _ => SyntaxErrorKind::ExpectingMemberNameOrObjectEnd,
            },
            _ => match byte {
                ascii::OPEN_BRACKET => return Token::Found(PeekedValue::ArrayStart),
                ascii::CLOSE_BRACKET => match context {
                    Context::Item => return Token::Found(PeekedValue::ArrayEnd),
                    _ => SyntaxErrorKind::UnexpectedClosingBracket,
                },
                ascii::OPEN_BRACE => return Token::Found(PeekedValue::ObjectStart),
                ascii::CLOSE_BRACE => SyntaxErrorKind::UnexpectedClosingBracket,
                ascii::QUOTE => return Token::Found(PeekedValue::StringStart),
                ascii::MINUS | ascii::DIGIT_0..=ascii::DIGIT_9 => return Token::Found(
                    PeekedValue::NumberStart,
                ),
                ascii::LOWER_N => {
                    let text = [ascii::LOWER_N, ascii::LOWER_U, ascii::LOWER_L, ascii::LOWER_L];
                    assert(text@ =~= PeekedValue::Null.text());
                    return self.consume_literal(PeekedValue::Null, text.as_slice());
                },
                ascii::LOWER_T => {
                    let text = [ascii::LOWER_T, ascii::LOWER_R, ascii::LOWER_U, ascii::LOWER_E];
                    assert(text@ =~= PeekedValue::BooleanTrue.text());
                    return self.consume_literal(PeekedValue::BooleanTrue, text.as_slice());
                },
                ascii::LOWER_F => {
                    let text = [
                        ascii::LOWER_F,
                        ascii::LOWER_A,
                        ascii::LOWER_L,
                        ascii::LOWER_S,
                        ascii::LOWER_E,
                    ];
                    assert(text@ =~= PeekedValue::BooleanFalse.text());
                    return self.consume_literal(PeekedValue::BooleanFalse, text.as_slice());
                },
                ascii::COMMA => SyntaxErrorKind::UnexpectedComma,
                ascii::COLON => SyntaxErrorKind::UnexpectedColon,
                _ => SyntaxErrorKind::MalformedJson,
            },
        };
        Token::Rejected { rejection: Rejection::Syntax(unexpected), consumed: 0 }
    }

    // ---- Strings ----

    /// Starts reading a value at the next byte.
    pub fn begin_value(&mut self)
        requires
            old(self).wf(),
        ensures
            final(self).wf(),
            final(self)@ == (ScanState { value: Some(Seq::empty()), ..old(self)@ }),
    {
        self.input.begin_value();
    }

    /// Reads the next string character; if a value is being read it becomes part of that.
    pub fn read_string_char(&mut self) -> (result: Option<StringEnd>)
        requires
            old(self).wf(),
        ensures
            final(self).wf(),
            (final(self)@, result) == old(self)@.string_step(),
    {
        proof {
            self@.pending.lemma_string_char();
        }
        let next = self.input.read_string_char();
        match next {
            NextChar::NeedsInput => Some(StringEnd::NeedsInput),
            NextChar::Rejected { rejection, consumed } => {
                self.input.skip(consumed);
                Some(StringEnd::Rejected(rejection))
            },
            NextChar::Quote => Some(StringEnd::Quote),
            NextChar::Plain { len } => {
                if self.input.is_reading_value() {
                    self.input.keep(len);
                } else {
                    self.input.skip(len);
                }
                self.location.column = self.location.column + 1;
                self.location.byte_pos = self.location.byte_pos + len as u64;
                None
            },
            NextChar::Escaped { len, scalar } => {
                self.input.skip(len);
                if self.input.is_reading_value() {
                    let bytes = utf8::encode(scalar);
                    self.input.push_bytes(bytes.as_slice());
                }
                self.location.column = self.location.column + len as u64;
                self.location.byte_pos = self.location.byte_pos + len as u64;
                None
            },
        }
    }

    /// Reads string characters up to the closing double quote.
    pub fn read_string_chars(&mut self) -> (result: StringEnd)
        requires
            old(self).wf(),
        ensures
            final(self).wf(),
            (final(self)@, result) == old(self)@.read_string(),
    {
        loop
            invariant
                self.wf(),
                self@.read_string() == old(self)@.read_string(),
            decreases self@.pending.bytes.len(),
        {
            proof {
                self@.lemma_string_step();
            }
            let end = self.read_string_char();
            if let Some(end) = end {
                return end;
            }
        }
    }

    /// Reads the next string character, and adds its UTF-8 bytes to the given bytes.
    pub fn copy_string_char(&mut self, bytes: &mut Vec<u8>) -> (result: Option<StringEnd>)
        requires
            old(self).wf(),
            old(self)@.value is None,
        ensures
            final(self).wf(),
            (final(self)@, result) == old(self)@.string_step(),
            final(bytes)@ == old(bytes)@ + old(self)@.pending.string_char().bytes(
                old(self)@.pending,
            ),
    {
        proof {
            self@.pending.lemma_string_char();
        }
        match self.input.read_string_char() {
            NextChar::Plain { len } => {
                bytes.extend_from_slice(vstd::slice::slice_subrange(self.input.content(), 0, len));
                assert(bytes@ =~= old(bytes)@ + self@.pending.bytes.take(len as int));
            },
            NextChar::Escaped { scalar, .. } => {
                let encoded = utf8::encode(scalar);
                bytes.extend_from_slice(encoded.as_slice());
                assert(bytes@ =~= old(bytes)@ + encode_scalar(scalar));
            },
            _ => {
                assert(bytes@ =~= old(bytes)@ + Seq::<u8>::empty());
            },
        }
        self.read_string_char()
    }

    /// Consumes an ASCII character which is no line break.
    pub fn pass_ascii(&mut self)
        requires
            old(self).wf(),
            old(self)@.pending.bytes.len() >= 1,
        ensures
            final(self).wf(),
            final(self)@ == old(self)@.consumed(1, 1),
    {
        self.input.skip(1);
        self.location.column = self.location.column + 1;
        self.location.byte_pos = self.location.byte_pos + 1;
    }

    /// Ends reading a string, and consumes the closing double quote.
    pub fn finish_string(&mut self, requires_borrowed: bool) -> (result: BytesValue)
        requires
            old(self).wf(),
            old(self)@.value is Some,
            old(self)@.pending.bytes.len() >= 1,
        ensures
            final(self).wf(),
            final(self)@ == (ScanState { value: None, ..old(self)@.consumed(1, 1) }),
            final(self).provides(result),
            final(self).bytes_of(result) == old(self)@.value->0,
            requires_borrowed ==> !(result is Owned),
    {
        let result = self.input.finish_value(requires_borrowed, 1);
        self.location.column = self.location.column + 1;
        self.location.byte_pos = self.location.byte_pos + 1;
        result
    }

    /// Ends reading a value.
    pub fn finish_value(&mut self, requires_borrowed: bool) -> (result: BytesValue)
        requires
            old(self).wf(),
            old(self)@.value is Some,
        ensures
            final(self).wf(),
            final(self)@ == (ScanState { value: None, ..old(self)@ }),
            final(self).provides(result),
            final(self).bytes_of(result) == old(self)@.value->0,
            requires_borrowed ==> !(result is Owned),
    {
        let result = self.input.finish_value(requires_borrowed, 0);
        assert(self@.pending.bytes =~= old(self)@.pending.bytes);
        result
    }

    /// A value without any bytes.
    pub fn empty_value(&self) -> (result: BytesValue)
        ensures
            self.provides(result),
            self.bytes_of(result) == Seq::<u8>::empty(),
    {
        self.input.empty_value()
    }

    /// Whether a value is being read.
    pub fn is_reading_value(&self) -> (result: bool)
        ensures
            result == (self@.value is Some),
    {
        self.input.is_reading_value()
    }

    /// The number of bytes read so far of the current value.
    pub fn value_len(&self) -> (len: usize)
        requires
            self.wf(),
            self@.value is Some,
            self@.value->0.len() <= usize::MAX,
        ensures
            len == self@.value->0.len(),
    {
        self.input.value_len()
    }

    /// Gets a completely read value as `str`.
    pub fn get_str(&self, value: &BytesValue) -> (result: &str)
        requires
            self.provides(*value),
            !(value is Owned),
            valid_utf8(self.bytes_of(*value)),
        ensures
            result@ == decode_utf8(self.bytes_of(*value)),
    {
        self.input.get_str(value)
    }

    /// Gets a completely read value as `String`.
    pub fn get_string(&self, value: BytesValue) -> (result: String)
        requires
            self.provides(value),
            valid_utf8(self.bytes_of(value)),
        ensures
            result@ == decode_utf8(self.bytes_of(value)),
    {
        self.input.get_string(value)
    }

    // ---- Numbers ----

    /// Reads the bytes of a number; if a value is being read they become part of that.
    pub fn read_number_bytes(&mut self, state: &mut NumberState) -> (result: NumberEnd)
        requires
            old(self).wf(),
            old(state)@.sound(),
            old(state)@.len + old(self)@.total() <= u64::MAX,
        ensures
            final(self).wf(),
            final(state)@.sound(),
            (final(self)@, final(state)@, result) == old(self)@.read_number(old(state)@),
    {
        loop
            invariant
                self.wf(),
                state@.sound(),
                state@.len + self@.total() <= u64::MAX,
                self@.read_number(state@) == old(self)@.read_number(old(state)@),
            decreases self@.pending.bytes.len(),
        {
            let byte = match self.input.ahead(0) {
                Ahead::Missing => return NumberEnd::NeedsInput,
                Ahead::Ended => return state.part.decide_at_eof(),
                Ahead::Byte(byte) => byte,
            };
            let ghost before = self@;
            match state.part.decide(byte) {
                NumberStep::Consume(part) => {
                    if self.input.is_reading_value() {
                        self.input.keep(1);
                        assert(before.pending.bytes.take(1) =~= seq![byte]);
                    } else {
                        self.input.skip(1);
                    }
                    *state = state.advance(byte, part);
                    assert(self@ =~= before.with_bytes(seq![byte]).dropped(1));
                },
                NumberStep::End => return NumberEnd::Complete,
                NumberStep::Malformed => return NumberEnd::Malformed,
            }
        }
    }
}

} // verus!
