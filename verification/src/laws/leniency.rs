//! Laws: what is not part of the JSON grammar is rejected, unless the settings allow it.

use vstd::prelude::*;

use crate::ascii;
use crate::error::{Outcome, Problem, SyntaxErrorKind, ValueType};
use crate::model::{Operation, ReaderModel};
use crate::position::Place;
use crate::settings::ReaderSettings;
use crate::token::{PeekedValue, StackValue, Token};
use crate::usage::Misuse;

verus! {

impl ReaderModel {
    /// A trailing comma in an array or object is ignored if this is enabled in the settings, and
    /// otherwise reported at the place of the comma.
    pub proof fn law_trailing_comma(self, i: int, j: int)
        requires
            self.valid(),
            self.ongoing is None,
            self.misuse(Operation::HasNext) is None,
            self.peeked is None,
            self.stack.len() > 0,
            !self.is_empty,
            0 <= i < j < self.scan.pending.bytes.len(),
            super::documents::is_separated_until(
                self.scan.pending.bytes,
                ascii::COMMA,
                i,
                j,
                self.settings,
            ),
            self.scan.pending.bytes[j] == match self.stack.last() {
                StackValue::Array => ascii::CLOSE_BRACKET,
                StackValue::Object => ascii::CLOSE_BRACE,
            },
        ensures
            if self.settings.allow_trailing_comma {
                self.has_next().1 == Outcome::Ready(false)
            } else {
                let spot = self.scan.skip_gap(self.settings.allow_comments).0.spot;
                &&& spot.byte_pos == self.scan.spot.byte_pos + i
                &&& self.has_next().1 == Outcome::<bool>::Failed(
                    Problem::Syntax(
                        SyntaxErrorKind::TrailingCommaNotEnabled,
                        Place { path: self.path, spot },
                    ),
                )
            },
    {
        reveal(ReaderModel::has_next);
        assert(self.picked_up() == self);
        let bytes = self.scan.pending.bytes;
        let allow_comments = self.settings.allow_comments;
        super::gaps::lemma_gap(self.scan, i, ascii::COMMA, self.settings);
        self.scan.lemma_skip_gap(allow_comments);
        let (scan, _) = self.scan.skip_gap(allow_comments);
        let behind = ReaderModel { scan: scan.consumed(1, 1), comma: Some(scan.spot), ..self };
        let count = j - i - 1;
        assert(behind.scan.pending.bytes =~= bytes.skip(i + 1));
        assert(behind.scan.pending.bytes.take(count) =~= bytes.subrange(i + 1, j));
        super::gaps::lemma_gap(behind.scan, count, bytes[j], self.settings);
        assert(self.peek_separated() == behind.peek_after_comma());
        let (last, _) = behind.scan.skip_gap(allow_comments);
        let end = match self.stack.last() {
            StackValue::Array => PeekedValue::ArrayEnd,
            StackValue::Object => PeekedValue::ObjectEnd,
        };
        assert(last.pending.token(bytes[j], self.context()) == Token::Found(end));
    }

    /// A byte order mark at the start of the data is rejected.
    pub proof fn law_byte_order_mark_is_rejected(settings: ReaderSettings, text: Seq<u8>)
        requires
            text.len() >= 3,
            text[0] == 0xEF,
            text[1] == 0xBB,
            text[2] == 0xBF,
        ensures
            ({
                let reader = ReaderModel::start(settings).extended(text, true);
                reader.peek().1 == Outcome::<ValueType>::Failed(
                    Problem::Syntax(SyntaxErrorKind::MalformedJson, reader.place()),
                )
            }),
    {
        let reader = ReaderModel::start(settings).extended(text, true);
        assert(reader.picked_up() == reader);
        assert(reader.scan.pending.bytes =~= text);
        assert(text.take(0) =~= Seq::empty());
        super::gaps::lemma_gap(reader.scan, 0, 0xEF, settings);
        let (scan, _) = reader.scan.skip_gap(settings.allow_comments);
        assert(text.skip(0) =~= text);
        assert(scan.spot == reader.scan.spot) by {
            reader.scan.lemma_gap_step(settings.allow_comments);
        }
    }

    /// Behind the top-level value nothing can be read, unless several top-level values are enabled
    /// in the settings; then it can be checked whether there is another one.
    pub proof fn law_further_top_level_values(self)
        requires
            self.valid(),
            self.ongoing is None,
            self.peeked is None,
            !self.string_reader_active,
            self.is_behind_top_level(),
        ensures
            if self.settings.allow_multiple_top_level {
                &&& self.misuse(Operation::HasNext) is None
                &&& self.misuse(Operation::Peek) is None
                &&& self.has_next().1 == Outcome::Ready(false) ==> self.has_next().0.peek().1
                    == Outcome::<ValueType>::Failed(
                    Problem::Structure(
                        crate::error::UnexpectedStructureKind::FewerElementsThanExpected,
                        self.has_next().0.place(),
                    ),
                )
            } else {
                &&& self.misuse(Operation::HasNext) == Some(
                    Misuse::HasNextMultipleTopLevelDisabled,
                )
                &&& self.misuse(Operation::Peek) == Some(Misuse::PeekBehindTopLevel)
            },
            self.misuse(Operation::ConsumeTrailingWhitespace) is None,
    {
        if self.settings.allow_multiple_top_level {
            reveal(ReaderModel::has_next);
            assert(self.picked_up() == self);
            self.lemma_check_next();
            self.lemma_peek_optional();
            let (next, outcome) = self.has_next();
            if outcome == Outcome::Ready(false) {
                self.lemma_nothing_follows(next);
            }
        }
    }

    /// At the end of the data there is no token.
    proof fn lemma_nothing_follows(self, next: ReaderModel)
        requires
            self.can_peek(),
            self.at_token(),
            self.stack.len() == 0,
            !self.is_empty,
            self.settings.allow_multiple_top_level,
            self.ongoing is None,
            self.peek_optional() == (next, Outcome::Ready(None::<PeekedValue>)),
        ensures
            next.peek().1 == Outcome::<ValueType>::Failed(
                Problem::Structure(
                    crate::error::UnexpectedStructureKind::FewerElementsThanExpected,
                    next.place(),
                ),
            ),
    {
        self.lemma_peek_optional();
        self.scan.lemma_skip_gap(self.settings.allow_comments);
        assert(next.picked_up() == next);
        assert(next.scan.pending.bytes.len() == 0 && next.scan.pending.eof) by {
            self.scan.lemma_gap_at_end(self.settings.allow_comments);
        }
        let (scan, end) = next.scan.skip_gap(self.settings.allow_comments);
        assert(scan == next.scan);
    }
}

impl crate::scan::ScanState {
    /// The end of the data is reached when nothing is left.
    proof fn lemma_gap_at_end(self, allow_comments: bool)
        requires
            self.skip_gap(allow_comments).1 is Eof,
        ensures
            self.skip_gap(allow_comments).0.pending.bytes.len() == 0,
            self.skip_gap(allow_comments).0.pending.eof,
        decreases self.pending.bytes.len(),
    {
        self.lemma_gap_step(allow_comments);
        let (next, end) = self.gap_step(allow_comments);
        if end is None {
            next.lemma_gap_at_end(allow_comments);
        }
    }
}

} // verus!
