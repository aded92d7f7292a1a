//! ASCII bytes with a meaning in JSON.

use vstd::prelude::*;

verus! {

pub const TAB: u8 = 0x09;

pub const LINE_FEED: u8 = 0x0A;

pub const CARRIAGE_RETURN: u8 = 0x0D;

pub const SPACE: u8 = 0x20;

pub const QUOTE: u8 = 0x22;

pub const STAR: u8 = 0x2A;

pub const PLUS: u8 = 0x2B;

pub const COMMA: u8 = 0x2C;

pub const MINUS: u8 = 0x2D;

pub const POINT: u8 = 0x2E;

pub const SLASH: u8 = 0x2F;

pub const DIGIT_0: u8 = 0x30;

pub const DIGIT_1: u8 = 0x31;

pub const DIGIT_9: u8 = 0x39;

pub const COLON: u8 = 0x3A;

pub const UPPER_A: u8 = 0x41;

pub const UPPER_E: u8 = 0x45;

pub const UPPER_F: u8 = 0x46;

pub const OPEN_BRACKET: u8 = 0x5B;

pub const BACKSLASH: u8 = 0x5C;

pub const CLOSE_BRACKET: u8 = 0x5D;

pub const LOWER_A: u8 = 0x61;

pub const LOWER_B: u8 = 0x62;

pub const LOWER_E: u8 = 0x65;

pub const LOWER_F: u8 = 0x66;

pub const LOWER_L: u8 = 0x6C;

pub const LOWER_N: u8 = 0x6E;

pub const LOWER_R: u8 = 0x72;

pub const LOWER_S: u8 = 0x73;

pub const LOWER_T: u8 = 0x74;

pub const LOWER_U: u8 = 0x75;

pub const OPEN_BRACE: u8 = 0x7B;

pub const CLOSE_BRACE: u8 = 0x7D;

pub open spec fn is_digit(byte: u8) -> bool {
    DIGIT_0 <= byte <= DIGIT_9
}

/// Whether the byte is JSON whitespace: space, tab or one of the two line break bytes.
pub open spec fn is_blank(byte: u8) -> bool {
    byte == SPACE || byte == TAB || byte == LINE_FEED || byte == CARRIAGE_RETURN
}

/// Whether a byte may directly follow a literal or a number.
///
/// A colon is among these bytes although it never separates two values: the error for
/// it is then reported where the colon stands.
pub open spec fn is_separator(byte: u8) -> bool {
    ||| is_blank(byte)
    ||| byte == COMMA || byte == CLOSE_BRACKET || byte == CLOSE_BRACE || byte == SLASH || byte
        == COLON
}

} // verus!
