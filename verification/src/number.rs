//! The grammar of JSON numbers.

use vstd::prelude::*;

use crate::ascii;

verus! {

/// The part of a JSON number to which its last byte belongs.
#[derive(Debug, Clone, Copy, PartialEq, Eq, Structural)]
pub enum NumberPart {
    /// No byte was read yet
    Start,
    /// `-`
    Minus,
    /// An integer part which consists of a single 0
    Zero,
    /// An integer part which starts with another digit
    Integer,
    /// `.`
    Point,
    /// Digits of the fraction
    Fraction,
    /// `e` or `E`
    ExponentMark,
    /// Sign of the exponent
    ExponentSign,
    /// Digits of the exponent
    Exponent,
}

/// What a byte means for a number.
#[derive(Debug, Clone, Copy, PartialEq, Eq, Structural)]
pub enum NumberStep {
    /// The byte belongs to the number.
    Consume(NumberPart),
    /// The number ends before the byte.
    End,
    /// The number is malformed.
    Malformed,
}

/// How reading of a number ended.
#[derive(Debug, Clone, Copy, PartialEq, Eq, Structural)]
pub enum NumberEnd {
    Complete,
    Malformed,
    NeedsInput,
}

/// The part of a number read so far.
#[derive(Debug, Clone, Copy, PartialEq, Eq, Structural)]
pub struct NumberState {
    pub part: NumberPart,
    /// Number of exponent digits, without leading zeros
    pub exponent_digits: u64,
    /// Number of bytes
    pub len: u64,
}

/// What a [`NumberState`] stands for.
pub struct NumberProgress {
    pub part: NumberPart,
    pub exponent_digits: nat,
    pub len: nat,
}

impl View for NumberState {
    type V = NumberProgress;

    open spec fn view(&self) -> NumberProgress {
        NumberProgress {
            part: self.part,
            exponent_digits: self.exponent_digits as nat,
            len: self.len as nat,
        }
    }
}

/// Maximum number of exponent digits if number values are restricted.
pub const MAX_EXPONENT_DIGITS: u64 = 2;

/// Maximum length of a number if number values are restricted.
pub const MAX_NUMBER_LEN: u64 = 100;

/// Whether the byte can occur within a number.
pub open spec fn is_number_byte(byte: u8) -> bool {
    ||| ascii::is_digit(byte)
    ||| byte == ascii::MINUS || byte == ascii::PLUS || byte == ascii::POINT || byte
        == ascii::LOWER_E || byte == ascii::UPPER_E
}

impl NumberPart {
    /// Whether a number can end with this part.
    pub open spec fn can_end(self) -> bool {
        self is Zero || self is Integer || self is Fraction || self is Exponent
    }

    /// The part to which a byte belongs which follows this part, if the grammar allows the byte
    /// there.
    pub open spec fn next(self, byte: u8) -> Option<NumberPart> {
        let mark = byte == ascii::LOWER_E || byte == ascii::UPPER_E;
        let sign = byte == ascii::PLUS || byte == ascii::MINUS;
        match self {
            NumberPart::Start => if byte == ascii::MINUS {
                Some(NumberPart::Minus)
            } else if byte == ascii::DIGIT_0 {
                Some(NumberPart::Zero)
            } else if ascii::is_digit(byte) {
                Some(NumberPart::Integer)
            } else {
                None
            },
            NumberPart::Minus => if byte == ascii::DIGIT_0 {
                Some(NumberPart::Zero)
            } else if ascii::is_digit(byte) {
                Some(NumberPart::Integer)
            } else {
                None
            },
            NumberPart::Zero => if byte == ascii::POINT {
                Some(NumberPart::Point)
            } else if mark {
                Some(NumberPart::ExponentMark)
            } else {
                None
            },
            NumberPart::Integer => if ascii::is_digit(byte) {
                Some(NumberPart::Integer)
            } else if byte == ascii::POINT {
                Some(NumberPart::Point)
            } else if mark {
                Some(NumberPart::ExponentMark)
            } else {
                None
            },
            NumberPart::Point => if ascii::is_digit(byte) {
                Some(NumberPart::Fraction)
            } else {
                None
            },
            NumberPart::Fraction => if ascii::is_digit(byte) {
                Some(NumberPart::Fraction)
            } else if mark {
                Some(NumberPart::ExponentMark)
            } else {
                None
            },
            NumberPart::ExponentMark => if sign {
                Some(NumberPart::ExponentSign)
            } else if ascii::is_digit(byte) {
                Some(NumberPart::Exponent)
            } else {
                None
            },
            NumberPart::ExponentSign | NumberPart::Exponent => if ascii::is_digit(byte) {
                Some(NumberPart::Exponent)
            } else {
                None
            },
        }
    }

    /// What a byte means which follows this part.
    ///
    /// A complete number must not be followed by a byte which could have been part of a number.
    pub open spec fn step(self, byte: u8) -> NumberStep {
        match self.next(byte) {
            Some(part) => NumberStep::Consume(part),
            None => if self.can_end() && !is_number_byte(byte) {
                NumberStep::End
            } else {
                NumberStep::Malformed
            },
        }
    }

    /// What the end of the data means behind this part.
    pub open spec fn at_eof(self) -> NumberEnd {
        if self.can_end() {
            NumberEnd::Complete
        } else {
            NumberEnd::Malformed
        }
    }

    /// Executable version of [`next`](Self::next).
    fn next_part(self, byte: u8) -> (result: Option<NumberPart>)
        ensures
            result == self.next(byte),
    {
        match self {
            NumberPart::Start => match byte {
                ascii::MINUS => Some(NumberPart::Minus),
                ascii::DIGIT_0 => Some(NumberPart::Zero),
                ascii::DIGIT_1..=ascii::DIGIT_9 => Some(NumberPart::Integer),
                _ => None,
            },
            NumberPart::Minus => match byte {
                ascii::DIGIT_0 => Some(NumberPart::Zero),
                ascii::DIGIT_1..=ascii::DIGIT_9 => Some(NumberPart::Integer),
                _ => None,
            },
            NumberPart::Zero => match byte {
                ascii::POINT => Some(NumberPart::Point),
                ascii::LOWER_E | ascii::UPPER_E => Some(NumberPart::ExponentMark),
                _ => None,
            },
            NumberPart::Integer => match byte {
                ascii::DIGIT_0..=ascii::DIGIT_9 => Some(NumberPart::Integer),
                ascii::POINT => Some(NumberPart::Point),
                ascii::LOWER_E | ascii::UPPER_E => Some(NumberPart::ExponentMark),
                _ => None,
            },
            NumberPart::Point => match byte {
                ascii::DIGIT_0..=ascii::DIGIT_9 => Some(NumberPart::Fraction),
                _ => None,
            },
            NumberPart::Fraction => match byte {
                ascii::DIGIT_0..=ascii::DIGIT_9 => Some(NumberPart::Fraction),
                ascii::LOWER_E | ascii::UPPER_E => Some(NumberPart::ExponentMark),
                _ => None,
            },
            NumberPart::ExponentMark => match byte {
                ascii::PLUS | ascii::MINUS => Some(NumberPart::ExponentSign),
                ascii::DIGIT_0..=ascii::DIGIT_9 => Some(NumberPart::Exponent),
                _ => None,
            },
            NumberPart::ExponentSign | NumberPart::Exponent => match byte {
                ascii::DIGIT_0..=ascii::DIGIT_9 => Some(NumberPart::Exponent),
                _ => None,
            },
        }
    }

    /// Decides what a byte means which follows this part.
    pub fn decide(self, byte: u8) -> (result: NumberStep)
        ensures
            result == self.step(byte),
    {
        match self.next_part(byte) {
            Some(part) => NumberStep::Consume(part),
            None => {
                let may_continue = match byte {
                    ascii::DIGIT_0..=ascii::DIGIT_9
                    | ascii::MINUS
                    | ascii::PLUS
                    | ascii::POINT
                    | ascii::LOWER_E
                    | ascii::UPPER_E => true,
                    _ => false,
                };
                match self.decide_at_eof() {
                    NumberEnd::Complete if !may_continue => NumberStep::End,
                    _ => NumberStep::Malformed,
                }
            },
        }
    }

    /// Decides what the end of the data means behind this part.
    pub fn decide_at_eof(self) -> (result: NumberEnd)
        ensures
            result == self.at_eof(),
    {
        match self {
            NumberPart::Zero | NumberPart::Integer | NumberPart::Fraction | NumberPart::Exponent =>
            NumberEnd::Complete,
            _ => NumberEnd::Malformed,
        }
    }
}

impl NumberProgress {
    /// Nothing was read yet.
    pub open spec fn start() -> NumberProgress {
        NumberProgress { part: NumberPart::Start, exponent_digits: 0, len: 0 }
    }

    /// A byte which belongs to the given part was read.
    pub open spec fn advanced(self, byte: u8, part: NumberPart) -> NumberProgress {
        let counts = part is Exponent && (byte != ascii::DIGIT_0 || self.exponent_digits > 0);
        NumberProgress {
            part,
            exponent_digits: if counts {
                self.exponent_digits + 1
            } else {
                self.exponent_digits
            },
            len: self.len + 1,
        }
    }

    /// Whether the number is accepted if number values are restricted.
    pub open spec fn is_supported(self) -> bool {
        self.exponent_digits <= 2 && self.len <= 100
    }

    pub open spec fn sound(self) -> bool {
        self.exponent_digits <= self.len
    }
}

impl NumberState {
    pub fn start() -> (result: Self)
        ensures
            result@ == NumberProgress::start(),
    {
        NumberState { part: NumberPart::Start, exponent_digits: 0, len: 0 }
    }

    /// Records a byte which belongs to the given part.
    pub fn advance(self, byte: u8, part: NumberPart) -> (result: NumberState)
        requires
            self@.sound(),
            self.len < u64::MAX,
        ensures
            result@ == self@.advanced(byte, part),
            result@.sound(),
    {
        let counts = match part {
            NumberPart::Exponent => byte != ascii::DIGIT_0 || self.exponent_digits > 0,
            _ => false,
        };
        NumberState {
            part,
            exponent_digits: if counts {
                self.exponent_digits + 1
            } else {
                self.exponent_digits
            },
            len: self.len + 1,
        }
    }

    /// Whether the number is accepted if number values are restricted: no exponent >= e100
    /// or <= e-100, and the complete number not longer than 100 chars.
    pub fn supported(self) -> (result: bool)
        ensures
            result == self@.is_supported(),
    {
        self.exponent_digits <= MAX_EXPONENT_DIGITS && self.len <= MAX_NUMBER_LEN
    }
}

} // verus!
