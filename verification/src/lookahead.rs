//! Decisions on the next character of a string or comment, made by looking at the bytes ahead.

use vstd::prelude::*;
use vstd::utf8::*;

use crate::ascii;
use crate::error::{Rejection, SyntaxErrorKind};

verus! {

/// Byte at some distance ahead.
#[derive(Debug, Clone, Copy, PartialEq, Eq, Structural)]
pub enum Ahead {
    Byte(u8),
    /// The byte is not available yet.
    Missing,
    /// The end of the data comes first.
    Ended,
}

/// Bytes which are available but not consumed yet, and whether the data ends behind them.
#[verifier::ext_equal]
pub struct Pending {
    pub bytes: Seq<u8>,
    pub eof: bool,
}

/// The next character of a string or comment.
#[derive(Debug, Clone, Copy, PartialEq, Eq, Structural)]
pub enum NextChar {
    /// The available bytes do not suffice to decide.
    NeedsInput,
    /// The data is malformed; `consumed` is the number of bytes which were looked at and which
    /// are not available for reading anymore.
    Rejected { rejection: Rejection, consumed: usize },
    /// The closing double quote.
    Quote,
    /// An unescaped char with the given number of UTF-8 bytes.
    Plain { len: usize },
    /// A char represented by an escape sequence of the given length.
    Escaped { len: usize, scalar: u32 },
}

/// The number given by four hexadecimal digits.
#[derive(Debug, Clone, Copy, PartialEq, Eq, Structural)]
pub enum HexNumber {
    NeedsInput,
    Rejected { consumed: usize },
    Value(u32),
}

/// The value of a hexadecimal digit.
pub open spec fn hex_value(byte: u8) -> Option<u32> {
    if ascii::is_digit(byte) {
        Some((byte - ascii::DIGIT_0) as u32)
    } else if ascii::LOWER_A <= byte <= ascii::LOWER_F {
        Some((byte - ascii::LOWER_A + 10) as u32)
    } else if ascii::UPPER_A <= byte <= ascii::UPPER_F {
        Some((byte - ascii::UPPER_A + 10) as u32)
    } else {
        None
    }
}

/// The char which an escape sequence of a backslash and this byte stands for.
pub open spec fn simple_escape(byte: u8) -> Option<u32> {
    if byte == ascii::QUOTE || byte == ascii::BACKSLASH || byte == ascii::SLASH {
        Some(byte as u32)
    } else if byte == ascii::LOWER_B {
        Some(0x08)
    } else if byte == ascii::LOWER_F {
        Some(0x0C)
    } else if byte == ascii::LOWER_N {
        Some(0x0A)
    } else if byte == ascii::LOWER_R {
        Some(0x0D)
    } else if byte == ascii::LOWER_T {
        Some(0x09)
    } else {
        None
    }
}

pub open spec fn is_high_surrogate(code: u32) -> bool {
    0xD800 <= code <= 0xDBFF
}

pub open spec fn is_low_surrogate(code: u32) -> bool {
    0xDC00 <= code <= 0xDFFF
}

/// The code point encoded by a surrogate pair.
pub open spec fn surrogate_pair(high: u32, low: u32) -> u32 {
    (0x10000 + (high - 0xD800) * 0x400 + (low - 0xDC00)) as u32
}

impl Pending {
    /// The byte `distance` bytes ahead.
    pub open spec fn ahead(self, distance: int) -> Ahead {
        if distance < self.bytes.len() {
            Ahead::Byte(self.bytes[distance])
        } else if self.eof {
            Ahead::Ended
        } else {
            Ahead::Missing
        }
    }

    /// The same data with more bytes available; `eof` tells whether the data ends behind these.
    pub open spec fn extended(self, bytes: Seq<u8>, eof: bool) -> Pending {
        Pending { bytes: self.bytes + bytes, eof }
    }

    /// What is left behind some bytes.
    pub open spec fn after(self, count: int) -> Pending {
        Pending { bytes: self.bytes.skip(count), eof: self.eof }
    }

    /// The next char, which is encoded with more than one byte.
    ///
    /// The bytes are looked at one after the other: a continuation byte is missing before the
    /// encoding as a whole is judged.
    pub open spec fn multibyte_char(self) -> NextChar {
        let byte0 = self.bytes[0];
        let incomplete = Rejection::Syntax(SyntaxErrorKind::IncompleteDocument);
        let invalid = Rejection::InvalidUtf8;
        match self.ahead(1) {
            Ahead::Missing => NextChar::NeedsInput,
            Ahead::Ended => NextChar::Rejected { rejection: incomplete, consumed: 1 },
            Ahead::Byte(byte1) => if !is_continuation_byte(byte1) {
                NextChar::Rejected { rejection: invalid, consumed: 2 }
            } else if is_leading_byte_width_2(byte0) {
                if valid_first_scalar(seq![byte0, byte1]) {
                    NextChar::Plain { len: 2 }
                } else {
                    NextChar::Rejected { rejection: invalid, consumed: 2 }
                }
            } else {
                match self.ahead(2) {
                    Ahead::Missing => NextChar::NeedsInput,
                    Ahead::Ended => NextChar::Rejected { rejection: incomplete, consumed: 2 },
                    Ahead::Byte(byte2) => if !is_continuation_byte(byte2) {
                        NextChar::Rejected { rejection: invalid, consumed: 3 }
                    } else if is_leading_byte_width_3(byte0) {
                        if valid_first_scalar(seq![byte0, byte1, byte2]) {
                            NextChar::Plain { len: 3 }
                        } else {
                            NextChar::Rejected { rejection: invalid, consumed: 3 }
                        }
                    } else if is_leading_byte_width_4(byte0) {
                        match self.ahead(3) {
                            Ahead::Missing => NextChar::NeedsInput,
                            Ahead::Ended => NextChar::Rejected {
                                rejection: incomplete,
                                consumed: 3,
                            },
                            Ahead::Byte(byte3) => if is_continuation_byte(byte3)
                                && valid_first_scalar(seq![byte0, byte1, byte2, byte3]) {
                                NextChar::Plain { len: 4 }
                            } else {
                                NextChar::Rejected { rejection: invalid, consumed: 4 }
                            },
                        }
                    } else {
                        NextChar::Rejected { rejection: invalid, consumed: 3 }
                    },
                }
            },
        }
    }

    /// The hexadecimal digit at a distance.
    pub open spec fn hex_digit(self, distance: usize) -> HexNumber {
        match self.ahead(distance as int) {
            Ahead::Missing => HexNumber::NeedsInput,
            Ahead::Ended => HexNumber::Rejected { consumed: distance },
            Ahead::Byte(byte) => match hex_value(byte) {
                Some(value) => HexNumber::Value(value),
                None => HexNumber::Rejected { consumed: (distance + 1) as usize },
            },
        }
    }

    /// The number given by the four hexadecimal digits which start at a distance.
    pub open spec fn hex_number(self, distance: usize) -> HexNumber {
        match self.hex_digit(distance) {
            HexNumber::Value(digit1) => match self.hex_digit((distance + 1) as usize) {
                HexNumber::Value(digit2) => match self.hex_digit((distance + 2) as usize) {
                    HexNumber::Value(digit3) => match self.hex_digit((distance + 3) as usize) {
                        HexNumber::Value(digit4) => HexNumber::Value(
                            (digit1 * 0x1000 + digit2 * 0x100 + digit3 * 0x10 + digit4) as u32,
                        ),
                        stopped => stopped,
                    },
                    stopped => stopped,
                },
                stopped => stopped,
            },
            stopped => stopped,
        }
    }

    /// The char represented by a Unicode escape sequence: `\uXXXX`, or two of them which form
    /// a surrogate pair.
    pub open spec fn unicode_escape(self) -> NextChar {
        let malformed = Rejection::Syntax(SyntaxErrorKind::MalformedEscapeSequence);
        let unpaired = Rejection::Syntax(SyntaxErrorKind::UnpairedSurrogatePairEscapeSequence);
        match self.hex_number(2) {
            HexNumber::NeedsInput => NextChar::NeedsInput,
            HexNumber::Rejected { consumed } => NextChar::Rejected {
                rejection: malformed,
                consumed,
            },
            HexNumber::Value(code) => if is_low_surrogate(code) {
                NextChar::Rejected { rejection: unpaired, consumed: 6 }
            } else if !is_high_surrogate(code) {
                NextChar::Escaped { len: 6, scalar: code }
            } else {
                match self.ahead(6) {
                    Ahead::Missing => NextChar::NeedsInput,
                    Ahead::Ended => NextChar::Rejected { rejection: unpaired, consumed: 6 },
                    Ahead::Byte(byte6) => if byte6 != ascii::BACKSLASH {
                        NextChar::Rejected { rejection: unpaired, consumed: 7 }
                    } else {
                        match self.ahead(7) {
                            Ahead::Missing => NextChar::NeedsInput,
                            Ahead::Ended => NextChar::Rejected { rejection: unpaired, consumed: 7 },
                            Ahead::Byte(byte7) => if byte7 != ascii::LOWER_U {
                                NextChar::Rejected { rejection: unpaired, consumed: 8 }
                            } else {
                                match self.hex_number(8) {
                                    HexNumber::NeedsInput => NextChar::NeedsInput,
                                    HexNumber::Rejected { consumed } => NextChar::Rejected {
                                        rejection: malformed,
                                        consumed,
                                    },
                                    HexNumber::Value(code2) => if is_low_surrogate(code2) {
                                        NextChar::Escaped {
                                            len: 12,
                                            scalar: surrogate_pair(code, code2),
                                        }
                                    } else {
                                        NextChar::Rejected { rejection: unpaired, consumed: 12 }
                                    },
                                }
                            },
                        }
                    },
                }
            },
        }
    }

    /// The char represented by an escape sequence.
    pub open spec fn escape_sequence(self) -> NextChar {
        match self.ahead(1) {
            Ahead::Missing => NextChar::NeedsInput,
            Ahead::Ended => NextChar::Rejected {
                rejection: Rejection::Syntax(SyntaxErrorKind::MalformedEscapeSequence),
                consumed: 1,
            },
            Ahead::Byte(byte) => if byte == ascii::LOWER_U {
                self.unicode_escape()
            } else {
                match simple_escape(byte) {
                    Some(scalar) => NextChar::Escaped { len: 2, scalar },
                    None => NextChar::Rejected {
                        rejection: Rejection::Syntax(SyntaxErrorKind::UnknownEscapeSequence),
                        consumed: 2,
                    },
                }
            },
        }
    }

    /// The next character of a member name or string value.
    pub open spec fn string_char(self) -> NextChar {
        match self.ahead(0) {
            Ahead::Missing => NextChar::NeedsInput,
            Ahead::Ended => NextChar::Rejected {
                rejection: Rejection::Syntax(SyntaxErrorKind::IncompleteDocument),
                consumed: 0,
            },
            Ahead::Byte(byte) => if byte == ascii::BACKSLASH {
                self.escape_sequence()
            } else if byte == ascii::QUOTE {
                NextChar::Quote
            } else if byte < 0x20 {
                NextChar::Rejected {
                    rejection: Rejection::Syntax(SyntaxErrorKind::NotEscapedControlCharacter),
                    consumed: 1,
                }
            } else if byte < 0x80 {
                NextChar::Plain { len: 1 }
            } else {
                self.multibyte_char()
            },
        }
    }
}

impl NextChar {
    /// The number of bytes of the data which represent the char.
    pub open spec fn source_len(self) -> int {
        match self {
            NextChar::NeedsInput => 0,
            NextChar::Rejected { consumed, .. } => consumed as int,
            NextChar::Quote => 1,
            NextChar::Plain { len } => len as int,
            NextChar::Escaped { len, .. } => len as int,
        }
    }

    /// The number of columns which the char takes up.
    pub open spec fn columns(self) -> nat {
        match self {
            NextChar::Escaped { len, .. } => len as nat,
            _ => 1,
        }
    }

    /// The UTF-8 bytes of the char.
    pub open spec fn bytes(self, pending: Pending) -> Seq<u8> {
        match self {
            NextChar::Plain { len } => pending.bytes.take(len as int),
            NextChar::Escaped { scalar, .. } => encode_scalar(scalar),
            _ => Seq::empty(),
        }
    }
}

impl Pending {
    /// The decision on a char looks only at available bytes, and a decided char is one
    /// well-formed char.
    pub proof fn lemma_string_char(self)
        ensures
            self.string_char().source_len() <= self.bytes.len(),
            self.string_char().source_len() <= 12,
            self.string_char() is Plain || self.string_char() is Escaped || self.string_char()
                is Quote ==> self.string_char().source_len() >= 1,
            valid_utf8(self.string_char().bytes(self)),
            self.string_char().bytes(self).len() <= 4,
            self.string_char() matches NextChar::Escaped { scalar, .. } ==> is_scalar(scalar),
            self.string_char() is NeedsInput ==> !self.eof && self.bytes.len() <= 11,
    {
        let next = self.string_char();
        if let Ahead::Byte(byte) = self.ahead(0) {
            if byte >= 0x80 {
                self.lemma_multibyte_char();
            } else if let NextChar::Escaped { scalar, .. } = next {
                crate::utf8::lemma_encode_scalar_valid(scalar);
            } else if let NextChar::Plain { len } = next {
                let bytes = self.bytes.take(1);
                assert(bytes[0] == byte);
                assert(is_leading_byte_width_1(byte));
                assert(byte & 0x7F <= 0x7F) by (bit_vector);
                crate::utf8::lemma_single_scalar_valid(bytes);
            }
        }
    }

    /// As [`lemma_string_char`](Self::lemma_string_char), for chars of more than one byte.
    pub proof fn lemma_multibyte_char(self)
        requires
            self.bytes.len() > 0,
            self.bytes[0] >= 0x80,
        ensures
            self.multibyte_char().source_len() <= self.bytes.len(),
            self.multibyte_char().source_len() <= 4,
            self.multibyte_char() is Plain || self.multibyte_char() is Rejected
                || self.multibyte_char() is NeedsInput,
            self.multibyte_char() is Plain ==> self.multibyte_char().source_len() >= 2,
            valid_utf8(self.multibyte_char().bytes(self)),
            self.multibyte_char() is NeedsInput ==> !self.eof && self.bytes.len() <= 3,
    {
        if let NextChar::Plain { len } = self.multibyte_char() {
            let bytes = self.bytes.take(len as int);
            if len == 2 {
                assert(bytes =~= seq![self.bytes[0], self.bytes[1]]);
            } else if len == 3 {
                assert(bytes =~= seq![self.bytes[0], self.bytes[1], self.bytes[2]]);
            } else {
                assert(bytes =~= seq![self.bytes[0], self.bytes[1], self.bytes[2], self.bytes[3]]);
            }
            crate::utf8::lemma_single_scalar_valid(bytes);
        }
    }
}

} // verus!
