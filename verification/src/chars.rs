//! Reading of the next character of a string or comment.

use vstd::prelude::*;
use vstd::utf8::*;

use crate::ascii;
use crate::buffer::InputBuffer;
use crate::error::{Rejection, SyntaxErrorKind};
use crate::lookahead::{Ahead, HexNumber, NextChar};
use crate::utf8;

verus! {

/// Parses a hexadecimal digit of a Unicode escape sequence.
pub fn parse_unicode_escape_hex_digit(digit: u8) -> (value: Option<u32>)
    ensures
        value == crate::lookahead::hex_value(digit),
        value matches Some(value) ==> value < 0x10,
{
    match digit {
        ascii::DIGIT_0..=ascii::DIGIT_9 => Some((digit - ascii::DIGIT_0) as u32),
        ascii::LOWER_A..=ascii::LOWER_F => Some((digit - ascii::LOWER_A + 10) as u32),
        ascii::UPPER_A..=ascii::UPPER_F => Some((digit - ascii::UPPER_A + 10) as u32),
        _ => None,
    }
}

impl InputBuffer {
    fn read_hex_digit(&self, distance: usize) -> (result: HexNumber)
        requires
            self.wf(),
            distance < 100,
        ensures
            result == self.pending().hex_digit(distance),
            result matches HexNumber::Value(value) ==> value < 0x10,
    {
        match self.ahead(distance) {
            Ahead::Missing => HexNumber::NeedsInput,
            Ahead::Ended => HexNumber::Rejected { consumed: distance },
            Ahead::Byte(byte) => match parse_unicode_escape_hex_digit(byte) {
                Some(value) => HexNumber::Value(value),
                None => HexNumber::Rejected { consumed: distance + 1 },
            },
        }
    }

    /// Reads the four digits of a Unicode escape sequence.
    fn read_unicode_escape(&self, distance: usize) -> (result: HexNumber)
        requires
            self.wf(),
            distance < 90,
        ensures
            result == self.pending().hex_number(distance),
            result matches HexNumber::Value(value) ==> value <= 0xFFFF,
    {
        let digit1 = match self.read_hex_digit(distance) {
            HexNumber::Value(digit) => digit,
            stopped => return stopped,
        };
        let digit2 = match self.read_hex_digit(distance + 1) {
            HexNumber::Value(digit) => digit,
            stopped => return stopped,
        };
        let digit3 = match self.read_hex_digit(distance + 2) {
            HexNumber::Value(digit) => digit,
            stopped => return stopped,
        };
        let digit4 = match self.read_hex_digit(distance + 3) {
            HexNumber::Value(digit) => digit,
            stopped => return stopped,
        };
        HexNumber::Value(digit1 * 0x1000 + digit2 * 0x100 + digit3 * 0x10 + digit4)
    }

    /// Reads a Unicode-escaped char.
    ///
    /// The caller should have made sure that an initial `\u` prefix is next.
    fn read_unicode_escape_char(&self) -> (result: NextChar)
        requires
            self.wf(),
        ensures
            result == self.pending().unicode_escape(),
    {
        let malformed = Rejection::Syntax(SyntaxErrorKind::MalformedEscapeSequence);
        let unpaired = Rejection::Syntax(SyntaxErrorKind::UnpairedSurrogatePairEscapeSequence);

        let code = match self.read_unicode_escape(2) {
            HexNumber::NeedsInput => return NextChar::NeedsInput,
            HexNumber::Rejected { consumed } => return NextChar::Rejected {
                rejection: malformed,
                consumed,
            },
            HexNumber::Value(code) => code,
        };
        // Unpaired low surrogate
        if 0xDC00 <= code && code <= 0xDFFF {
            return NextChar::Rejected { rejection: unpaired, consumed: 6 };
        }
        // If char is high surrogate, expect Unicode-escaped low surrogate
        if 0xD800 <= code && code <= 0xDBFF {
            match self.ahead(6) {
                Ahead::Missing => return NextChar::NeedsInput,
                Ahead::Ended => return NextChar::Rejected { rejection: unpaired, consumed: 6 },
                Ahead::Byte(byte) => if byte != ascii::BACKSLASH {
                    return NextChar::Rejected { rejection: unpaired, consumed: 7 };
                },
            }
            match self.ahead(7) {
                Ahead::Missing => return NextChar::NeedsInput,
                Ahead::Ended => return NextChar::Rejected { rejection: unpaired, consumed: 7 },
                Ahead::Byte(byte) => if byte != ascii::LOWER_U {
                    return NextChar::Rejected { rejection: unpaired, consumed: 8 };
                },
            }
            let code2 = match self.read_unicode_escape(8) {
                HexNumber::NeedsInput => return NextChar::NeedsInput,
                HexNumber::Rejected { consumed } => return NextChar::Rejected {
                    rejection: malformed,
                    consumed,
                },
                HexNumber::Value(code2) => code2,
            };
            if !(0xDC00 <= code2 && code2 <= 0xDFFF) {
                return NextChar::Rejected { rejection: unpaired, consumed: 12 };
            }
            let scalar = 0x10000 + (code - 0xD800) * 0x400 + (code2 - 0xDC00);
            NextChar::Escaped { len: 12, scalar }
        } else {
            NextChar::Escaped { len: 6, scalar: code }
        }
    }

    /// Reads a UTF-8 char consisting of multiple bytes.
    pub fn read_utf8_multibyte(&self) -> (result: NextChar)
        requires
            self.wf(),
            self.pending().bytes.len() > 0,
        ensures
            result == self.pending().multibyte_char(),
    {
        let incomplete = Rejection::Syntax(SyntaxErrorKind::IncompleteDocument);
        let invalid = Rejection::InvalidUtf8;

        let byte0 = match self.ahead(0) {
            Ahead::Byte(byte) => byte,
            _ => return NextChar::NeedsInput,
        };
        let byte1 = match self.ahead(1) {
            Ahead::Missing => return NextChar::NeedsInput,
            Ahead::Ended => return NextChar::Rejected { rejection: incomplete, consumed: 1 },
            Ahead::Byte(byte) => byte,
        };
        if !utf8::is_continuation(byte1) {
            return NextChar::Rejected { rejection: invalid, consumed: 2 };
        }
        if utf8::is_2byte_start(byte0) {
            return if utf8::is_valid_2bytes(byte0, byte1) {
                NextChar::Plain { len: 2 }
            } else {
                NextChar::Rejected { rejection: invalid, consumed: 2 }
            };
        }
        let byte2 = match self.ahead(2) {
            Ahead::Missing => return NextChar::NeedsInput,
            Ahead::Ended => return NextChar::Rejected { rejection: incomplete, consumed: 2 },
            Ahead::Byte(byte) => byte,
        };
        if !utf8::is_continuation(byte2) {
            return NextChar::Rejected { rejection: invalid, consumed: 3 };
        }
        if utf8::is_3byte_start(byte0) {
            return if utf8::is_valid_3bytes(byte0, byte1, byte2) {
                NextChar::Plain { len: 3 }
            } else {
                NextChar::Rejected { rejection: invalid, consumed: 3 }
            };
        }
        if !utf8::is_4byte_start(byte0) {
            return NextChar::Rejected { rejection: invalid, consumed: 3 };
        }
        let byte3 = match self.ahead(3) {
            Ahead::Missing => return NextChar::NeedsInput,
            Ahead::Ended => return NextChar::Rejected { rejection: incomplete, consumed: 3 },
            Ahead::Byte(byte) => byte,
        };
        if utf8::is_continuation(byte3) && utf8::is_valid_4bytes(byte0, byte1, byte2, byte3) {
            NextChar::Plain { len: 4 }
        } else {
            NextChar::Rejected { rejection: invalid, consumed: 4 }
        }
    }

    /// Reads the char represented by an escape sequence.
    fn read_escape_sequence(&self) -> (result: NextChar)
        requires
            self.wf(),
        ensures
            result == self.pending().escape_sequence(),
    {
        match self.ahead(1) {
            Ahead::Missing => NextChar::NeedsInput,
            Ahead::Ended => NextChar::Rejected {
                rejection: Rejection::Syntax(SyntaxErrorKind::MalformedEscapeSequence),
                consumed: 1,
            },
            Ahead::Byte(byte) => match byte {
                ascii::QUOTE | ascii::BACKSLASH | ascii::SLASH => NextChar::Escaped {
                    len: 2,
                    scalar: byte as u32,
                },
                ascii::LOWER_B => NextChar::Escaped { len: 2, scalar: 0x08 },
                ascii::LOWER_F => NextChar::Escaped { len: 2, scalar: 0x0C },
                ascii::LOWER_N => NextChar::Escaped { len: 2, scalar: 0x0A },
                ascii::LOWER_R => NextChar::Escaped { len: 2, scalar: 0x0D },
                ascii::LOWER_T => NextChar::Escaped { len: 2, scalar: 0x09 },
                ascii::LOWER_U => self.read_unicode_escape_char(),
                _ => NextChar::Rejected {
                    rejection: Rejection::Syntax(SyntaxErrorKind::UnknownEscapeSequence),
                    consumed: 2,
                },
            },
        }
    }

    /// Reads the next character of a member name or string value.
    pub fn read_string_char(&self) -> (result: NextChar)
        requires
            self.wf(),
        ensures
            result == self.pending().string_char(),
    {
        match self.ahead(0) {
            Ahead::Missing => NextChar::NeedsInput,
            Ahead::Ended => NextChar::Rejected {
                rejection: Rejection::Syntax(SyntaxErrorKind::IncompleteDocument),
                consumed: 0,
            },
            Ahead::Byte(byte) => match byte {
                ascii::BACKSLASH => self.read_escape_sequence(),
                ascii::QUOTE => NextChar::Quote,
                // Control characters must be written as Unicode escape
                0x00..=0x1F => NextChar::Rejected {
                    rejection: Rejection::Syntax(SyntaxErrorKind::NotEscapedControlCharacter),
                    consumed: 1,
                },
                // Non-control ASCII characters
                0x20..=0x7F => NextChar::Plain { len: 1 },
                // Read and validate multibyte UTF-8 data
                _ => self.read_utf8_multibyte(),
            },
        }
    }
}

} // verus!
