//! Peeking at tokens.

use vstd::prelude::*;

use super::JsonStreamReader;
use crate::ascii;
use crate::error::{Outcome, Stop, SyntaxErrorKind, UnexpectedStructureKind, ValueType};
use crate::model::ReaderModel;
use crate::scan::GapEnd;
use crate::token::{PeekedValue, Token};

verus! {

impl<R> JsonStreamReader<R> {
    /// Skips whitespace and comments.
    pub(super) fn skip_whitespace(&mut self) -> (end: GapEnd)
        requires
            old(self).scanner.wf(),
        ensures
            ({
                let (scan, expected) = old(self)@.scan.skip_gap(old(self)@.settings.allow_comments);
                &&& old(self).moved_to(*final(self), ReaderModel { scan, ..old(self)@ })
                &&& end == expected
            }),
    {
        self.scanner.skip_whitespace(self.reader_settings.allow_comments)
    }

    /// Consumes the colon behind a member name.
    fn after_name(&mut self) -> (result: Result<(), Stop>)
        requires
            old(self).scanner.wf(),
        ensures
            old(self).moved_to(*final(self), old(self)@.after_name().0),
            old(self)@.after_name().1.is_result(result),
    {
        proof {
            self@.scan.lemma_skip_gap(self@.settings.allow_comments);
        }
        match self.skip_whitespace() {
            GapEnd::Byte(ascii::COLON) => {
                self.scanner.pass_ascii();
                self.colon_read = true;
                Ok(())
            },
            GapEnd::Byte(_) | GapEnd::Eof => self.create_syntax_value_error(
                SyntaxErrorKind::MissingColon,
            ),
            GapEnd::NeedsInput => Err(Stop::NeedsInput),
            GapEnd::Rejected(rejection) => self.reject(rejection),
        }
    }

    /// Peeks at the token which starts with the byte that is next.
    fn peek_token(&mut self, byte: u8) -> (result: Result<Option<PeekedValue>, Stop>)
        requires
            old(self).scanner.wf(),
            old(self)@.can_peek(),
            old(self)@.peeked is None,
            old(self)@.scan.pending.ahead(0) == crate::lookahead::Ahead::Byte(byte),
        ensures
            old(self).moved_to(*final(self), old(self)@.peek_token(byte).0),
            old(self)@.peek_token(byte).1.is_result(result),
    {
        proof {
            self@.scan.pending.lemma_token(byte, self@.context());
        }
        let can_have_comma = self.can_have_comma();
        match self.scanner.token(byte, self.context()) {
            Token::NeedsInput => Err(Stop::NeedsInput),
            Token::Rejected { rejection, consumed } => {
                self.scanner.drop_bytes(consumed);
                self.reject(rejection)
            },
            Token::Found(peeked) => {
                let (is_end, is_literal) = match peeked {
                    PeekedValue::ArrayEnd | PeekedValue::ObjectEnd => (true, false),
                    PeekedValue::Null | PeekedValue::BooleanTrue | PeekedValue::BooleanFalse => (
                        false,
                        true,
                    ),
                    _ => (false, false),
                };
                match self.comma {
                    Some(location) if is_end && !self.reader_settings.allow_trailing_comma => {
                        // Report location of comma
                        self.scanner.move_back(location);
                        return self.create_syntax_value_error(
                            SyntaxErrorKind::TrailingCommaNotEnabled,
                        );
                    },
                    None if !is_end && can_have_comma => {
                        if is_literal {
                            // The literal has been read already
                            self.scanner.drop_bytes(peeked.consumed_len());
                        }
                        return self.create_syntax_value_error(SyntaxErrorKind::MissingComma);
                    },
                    _ => {},
                }
                self.scanner.drop_bytes(peeked.consumed_len());
                self.peeked = Some(peeked);
                self.colon_read = false;
                self.comma = None;
                Ok(self.peeked)
            },
        }
    }

    /// Peeks at the token behind a comma.
    fn peek_after_comma(&mut self) -> (result: Result<Option<PeekedValue>, Stop>)
        requires
            old(self).scanner.wf(),
            old(self)@.can_peek(),
            old(self)@.peeked is None,
        ensures
            old(self).moved_to(*final(self), old(self)@.peek_after_comma().0),
            old(self)@.peek_after_comma().1.is_result(result),
    {
        proof {
            self@.scan.lemma_skip_gap(self@.settings.allow_comments);
        }
        match self.skip_whitespace() {
            GapEnd::Byte(byte) => self.peek_token(byte),
            GapEnd::Eof => self.create_syntax_value_error(SyntaxErrorKind::IncompleteDocument),
            GapEnd::NeedsInput => Err(Stop::NeedsInput),
            GapEnd::Rejected(rejection) => self.reject(rejection),
        }
    }

    /// Peeks at the next token, in front of which there may be a comma.
    fn peek_separated(&mut self) -> (result: Result<Option<PeekedValue>, Stop>)
        requires
            old(self).scanner.wf(),
            old(self)@.can_peek(),
            old(self)@.peeked is None,
        ensures
            old(self).moved_to(*final(self), old(self)@.peek_separated().0),
            old(self)@.peek_separated().1.is_result(result),
    {
        if self.comma.is_some() {
            return self.peek_after_comma();
        }
        proof {
            self@.scan.lemma_skip_gap(self@.settings.allow_comments);
        }
        match self.skip_whitespace() {
            GapEnd::Byte(ascii::COMMA) => {
                if !self.can_have_comma() {
                    return self.create_syntax_value_error(SyntaxErrorKind::UnexpectedComma);
                }
                self.comma = Some(self.scanner.location());
                self.scanner.pass_ascii();
                self.peek_after_comma()
            },
            GapEnd::Byte(byte) => self.peek_token(byte),
            GapEnd::Eof => {
                self.colon_read = false;
                Ok(None)
            },
            GapEnd::NeedsInput => Err(Stop::NeedsInput),
            GapEnd::Rejected(rejection) => self.reject(rejection),
        }
    }

    /// Peeks at the next token; there is none if the end of the data has been reached.
    ///
    /// Peeking again gives the same token and changes nothing, and the location is the start of the
    /// token.
    pub(super) fn peek_internal_optional(&mut self) -> (result: Result<Option<PeekedValue>, Stop>)
        requires
            old(self).scanner.wf(),
            old(self)@.can_peek(),
        ensures
            old(self).moved_to(*final(self), old(self)@.peek_optional().0),
            old(self)@.peek_optional().1.is_result(result),
            result matches Ok(Some(token)) ==> {
                &&& final(self)@.peek_optional() == (final(self)@, Outcome::Ready(Some(token)))
                &&& final(self)@.scan.total() + token.len() == old(self)@.scan.total() + old(
                    self,
                )@.unaccounted()
            },
    {
        proof {
            self@.law_token_is_kept();
        }
        if self.peeked.is_some() {
            return Ok(self.peeked);
        }
        if self.expects_member_value() && !self.colon_read {
            proof {
                self@.lemma_after_name();
            }
            // Finish member name which has just been consumed before
            self.after_name()?;
        }
        self.peek_separated()
    }

    /// Peeks at the next token, which has to exist.
    pub(super) fn peek_internal(&mut self) -> (result: Result<PeekedValue, Stop>)
        requires
            old(self).scanner.wf(),
            old(self)@.can_peek(),
        ensures
            old(self).moved_to(*final(self), old(self)@.peek_internal().0),
            old(self)@.peek_internal().1.is_result(result),
    {
        match self.peek_internal_optional()? {
            Some(peeked) => Ok(peeked),
            None => {
                let eof_as_unexpected_structure = self.is_behind_top_level()
                    && self.reader_settings.allow_multiple_top_level;
                if eof_as_unexpected_structure {
                    self.create_structure_error(UnexpectedStructureKind::FewerElementsThanExpected)
                } else {
                    self.create_syntax_value_error(SyntaxErrorKind::IncompleteDocument)
                }
            },
        }
    }

    /// Determines the type of the value which starts with a token.
    pub(super) fn map_peeked(&mut self, peeked: PeekedValue) -> (result: Result<ValueType, Stop>)
        requires
            old(self).scanner.wf(),
            !peeked.is_for_name(),
        ensures
            if peeked is ArrayEnd {
                let (next, outcome) = old(self)@.misfit::<ValueType>(
                    UnexpectedStructureKind::FewerElementsThanExpected,
                );
                &&& old(self).moved_to(*final(self), next)
                &&& outcome.is_result(result)
            } else {
                &&& *final(self) == *old(self)
                &&& result == Ok::<ValueType, Stop>(peeked.value_type())
            },
    {
        match peeked {
            PeekedValue::ObjectStart => Ok(ValueType::Object),
            PeekedValue::ArrayStart => Ok(ValueType::Array),
            PeekedValue::ArrayEnd => self.create_structure_error(
                UnexpectedStructureKind::FewerElementsThanExpected,
            ),
            PeekedValue::StringStart => Ok(ValueType::String),
            PeekedValue::NumberStart => Ok(ValueType::Number),
            PeekedValue::BooleanTrue | PeekedValue::BooleanFalse => Ok(ValueType::Boolean),
            _ => Ok(ValueType::Null),
        }
    }

    /// Peeks at the type of the next value.
    pub(super) fn peek_value(&mut self) -> (result: Result<ValueType, Stop>)
        requires
            old(self).scanner.wf(),
            old(self)@.can_peek(),
            !old(self)@.expects_member_name,
        ensures
            old(self).moved_to(*final(self), old(self)@.peek_value().0),
            old(self)@.peek_value().1.is_result(result),
    {
        proof {
            self@.lemma_peek_internal();
        }
        let peeked = self.peek_internal()?;
        self.map_peeked(peeked)
    }

    /// Consumes the token which was peeked at.
    pub(super) fn consume_peeked(&mut self)
        requires
            old(self).scanner.wf(),
            old(self)@.consistent(),
            old(self)@.peeked is Some,
        ensures
            old(self).moved_to(*final(self), old(self)@.consume_peeked()),
    {
        if let Some(peeked) = self.peeked {
            // Peeked value types consist only of ASCII chars; therefore can treat length as byte count
            self.scanner.advance(peeked.consumed_len() as u64);
        }
        self.peeked = None;
    }
}

} // verus!
