//! Start and literal tokens of a JSON document.

use vstd::prelude::*;

use crate::ascii;
use crate::error::{Rejection, SyntaxErrorKind, ValueType};
use crate::lookahead::{Ahead, Pending};

verus! {

/// A token which was peeked at.
#[derive(Debug, Clone, Copy, PartialEq, Eq, Structural)]
pub enum PeekedValue {
    ObjectStart,
    ObjectEnd,
    ArrayStart,
    ArrayEnd,
    /// The opening double quote was consumed already
    StringStart,
    /// The opening double quote was consumed already
    NameStart,
    /// The number was not consumed yet
    NumberStart,
    Null,
    BooleanTrue,
    BooleanFalse,
}

/// An array or object which was started and not ended yet.
#[derive(Debug, Clone, Copy, PartialEq, Eq, Structural)]
pub enum StackValue {
    Array,
    Object,
}

/// The next token.
#[derive(Debug, Clone, Copy, PartialEq, Eq, Structural)]
pub enum Token {
    NeedsInput,
    /// The data is malformed; `consumed` is the number of bytes which are not available for
    /// reading anymore.
    Rejected { rejection: Rejection, consumed: usize },
    /// A token, which is consumed while peeking unless it is a number.
    Found(PeekedValue),
}

/// Where a token stands.
#[derive(Debug, Clone, Copy, PartialEq, Eq, Structural)]
pub enum Context {
    /// Where an object member name is expected
    Name,
    /// Where an array item is expected
    Item,
    /// Where another value is expected
    Value,
}

/// How reading of a literal ended.
#[derive(Debug, Clone, Copy, PartialEq, Eq, Structural)]
pub enum LiteralEnd {
    NeedsInput,
    Rejected { rejection: Rejection, consumed: usize },
    Complete,
}

impl PeekedValue {
    /// The number of bytes which were consumed while peeking.
    pub open spec fn len(self) -> nat {
        match self {
            PeekedValue::NumberStart => 0,
            PeekedValue::Null => 4,
            PeekedValue::BooleanTrue => 4,
            PeekedValue::BooleanFalse => 5,
            _ => 1,
        }
    }

    pub open spec fn is_end(self) -> bool {
        self is ArrayEnd || self is ObjectEnd
    }

    pub open spec fn is_literal(self) -> bool {
        self is Null || self is BooleanTrue || self is BooleanFalse
    }

    /// Whether the token can only occur where a member name is expected.
    pub open spec fn is_for_name(self) -> bool {
        self is NameStart || self is ObjectEnd
    }

    /// The type of the value which starts with the token.
    pub open spec fn value_type(self) -> ValueType
        recommends
            !self.is_end(),
            !self.is_for_name(),
    {
        match self {
            PeekedValue::ObjectStart => ValueType::Object,
            PeekedValue::ArrayStart => ValueType::Array,
            PeekedValue::StringStart => ValueType::String,
            PeekedValue::NumberStart => ValueType::Number,
            PeekedValue::BooleanTrue => ValueType::Boolean,
            PeekedValue::BooleanFalse => ValueType::Boolean,
            _ => ValueType::Null,
        }
    }

    /// The characters of a literal.
    pub open spec fn text(self) -> Seq<u8>
        recommends
            self.is_literal(),
    {
        match self {
            PeekedValue::Null => seq![
                ascii::LOWER_N,
                ascii::LOWER_U,
                ascii::LOWER_L,
                ascii::LOWER_L,
            ],
            PeekedValue::BooleanTrue => seq![
                ascii::LOWER_T,
                ascii::LOWER_R,
                ascii::LOWER_U,
                ascii::LOWER_E,
            ],
            _ => seq![
                ascii::LOWER_F,
                ascii::LOWER_A,
                ascii::LOWER_L,
                ascii::LOWER_S,
                ascii::LOWER_E,
            ],
        }
    }

    /// The number of bytes which are consumed while peeking.
    pub fn consumed_len(self) -> (result: usize)
        ensures
            result == self.len(),
    {
        match self {
            PeekedValue::NumberStart => 0,
            PeekedValue::Null => 4,
            PeekedValue::BooleanTrue => 4,
            PeekedValue::BooleanFalse => 5,
            _ => 1,
        }
    }
}

impl Pending {
    /// The literal which is next and of which `at` bytes were found already.
    ///
    /// There must be no misleading chars directly afterwards, e.g. `truey`.
    pub open spec fn literal(self, text: Seq<u8>, at: nat) -> LiteralEnd
        decreases text.len() - at,
    {
        if at < text.len() {
            match self.ahead(at as int) {
                Ahead::Missing => LiteralEnd::NeedsInput,
                Ahead::Ended => LiteralEnd::Rejected {
                    rejection: Rejection::Syntax(SyntaxErrorKind::InvalidLiteral),
                    consumed: at as usize,
                },
                Ahead::Byte(byte) => if byte == text[at as int] {
                    self.literal(text, at + 1)
                } else {
                    LiteralEnd::Rejected {
                        rejection: Rejection::Syntax(SyntaxErrorKind::InvalidLiteral),
                        consumed: (at + 1) as usize,
                    }
                },
            }
        } else {
            match self.ahead(at as int) {
                Ahead::Missing => LiteralEnd::NeedsInput,
                Ahead::Ended => LiteralEnd::Complete,
                Ahead::Byte(byte) => if ascii::is_separator(byte) {
                    LiteralEnd::Complete
                } else {
                    LiteralEnd::Rejected {
                        rejection: Rejection::Syntax(SyntaxErrorKind::TrailingDataAfterLiteral),
                        consumed: at as usize,
                    }
                },
            }
        }
    }

    pub open spec fn literal_token(self, literal: PeekedValue) -> Token {
        match self.literal(literal.text(), 0) {
            LiteralEnd::NeedsInput => Token::NeedsInput,
            LiteralEnd::Rejected { rejection, consumed } => Token::Rejected { rejection, consumed },
            LiteralEnd::Complete => Token::Found(literal),
        }
    }

    /// The token which starts with the given byte, which is next.
    pub open spec fn token(self, byte: u8, context: Context) -> Token {
        let unexpected = |kind: SyntaxErrorKind|
            Token::Rejected { rejection: Rejection::Syntax(kind), consumed: 0 };
        if context is Name {
            if byte == ascii::CLOSE_BRACE {
                Token::Found(PeekedValue::ObjectEnd)
            } else if byte == ascii::QUOTE {
                Token::Found(PeekedValue::NameStart)
            } else {
                unexpected(SyntaxErrorKind::ExpectingMemberNameOrObjectEnd)
            }
        } else if byte == ascii::OPEN_BRACKET {
            Token::Found(PeekedValue::ArrayStart)
        } else if byte == ascii::CLOSE_BRACKET {
            if context is Item {
                Token::Found(PeekedValue::ArrayEnd)
            } else {
                unexpected(SyntaxErrorKind::UnexpectedClosingBracket)
            }
        } else if byte == ascii::OPEN_BRACE {
            Token::Found(PeekedValue::ObjectStart)
        } else if byte == ascii::CLOSE_BRACE {
            unexpected(SyntaxErrorKind::UnexpectedClosingBracket)
        } else if byte == ascii::QUOTE {
            Token::Found(PeekedValue::StringStart)
        } else if byte == ascii::MINUS || ascii::is_digit(byte) {
            Token::Found(PeekedValue::NumberStart)
        } else if byte == ascii::LOWER_N {
            self.literal_token(PeekedValue::Null)
        } else if byte == ascii::LOWER_T {
            self.literal_token(PeekedValue::BooleanTrue)
        } else if byte == ascii::LOWER_F {
            self.literal_token(PeekedValue::BooleanFalse)
        } else if byte == ascii::COMMA {
            unexpected(SyntaxErrorKind::UnexpectedComma)
        } else if byte == ascii::COLON {
            unexpected(SyntaxErrorKind::UnexpectedColon)
        } else {
            unexpected(SyntaxErrorKind::MalformedJson)
        }
    }

    /// A literal is decided by available bytes.
    pub proof fn lemma_literal(self, text: Seq<u8>, at: nat)
        requires
            at <= text.len(),
            at <= self.bytes.len(),
            text.len() <= 5,
        ensures
            self.literal(text, at) is Complete ==> text.len() <= self.bytes.len(),
            self.literal(text, at) matches LiteralEnd::Rejected { consumed, .. } ==> consumed
                <= self.bytes.len(),
            self.literal(text, at) is NeedsInput ==> !self.eof && self.bytes.len() <= 5,
        decreases text.len() - at,
    {
        if at < text.len() && at < self.bytes.len() {
            self.lemma_literal(text, at + 1);
        }
    }

    /// A token is decided by available bytes.
    pub proof fn lemma_token(self, byte: u8, context: Context)
        requires
            self.ahead(0) == Ahead::Byte(byte),
        ensures
            self.token(byte, context) matches Token::Found(peeked) ==> {
                &&& peeked.len() <= self.bytes.len()
                &&& peeked.is_for_name() <==> context is Name
                &&& peeked is ArrayEnd ==> context is Item
            },
            self.token(byte, context) matches Token::Rejected { consumed, .. } ==> consumed
                <= self.bytes.len(),
            self.token(byte, context) is NeedsInput ==> !self.eof && self.bytes.len() <= 5,
    {
        self.lemma_literal(PeekedValue::Null.text(), 0);
        self.lemma_literal(PeekedValue::BooleanTrue.text(), 0);
        self.lemma_literal(PeekedValue::BooleanFalse.text(), 0);
    }

    /// A decision on a literal does not change when more data is available.
    pub proof fn lemma_literal_extended(self, text: Seq<u8>, at: nat, bytes: Seq<u8>, eof: bool)
        requires
            at <= text.len(),
            at <= self.bytes.len(),
            !self.eof,
            !(self.literal(text, at) is NeedsInput),
        ensures
            self.extended(bytes, eof).literal(text, at) == self.literal(text, at),
        decreases text.len() - at,
    {
        self.lemma_ahead_extended(bytes, eof);
        assert(at < self.bytes.len() ==> self.extended(bytes, eof).ahead(at as int) == self.ahead(
            at as int,
        ));
        if at < text.len() && at < self.bytes.len() && self.bytes[at as int] == text[at as int] {
            self.lemma_literal_extended(text, at + 1, bytes, eof);
        }
    }

    /// A decision on a token does not change when more data is available.
    pub proof fn lemma_token_extended(self, byte: u8, context: Context, bytes: Seq<u8>, eof: bool)
        requires
            !self.eof,
            !(self.token(byte, context) is NeedsInput),
        ensures
            self.extended(bytes, eof).token(byte, context) == self.token(byte, context),
    {
        if !(context is Name) {
            if byte == ascii::LOWER_N {
                self.lemma_literal_extended(PeekedValue::Null.text(), 0, bytes, eof);
            } else if byte == ascii::LOWER_T {
                self.lemma_literal_extended(PeekedValue::BooleanTrue.text(), 0, bytes, eof);
            } else if byte == ascii::LOWER_F {
                self.lemma_literal_extended(PeekedValue::BooleanFalse.text(), 0, bytes, eof);
            }
        }
    }
}

} // verus!
