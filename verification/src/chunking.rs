//! Independence of the operations of the JSON reader from how the data is divided into pieces.

use vstd::prelude::*;

use crate::error::{Outcome, ValueType};
use crate::model::{Doing, ReaderModel, TransferProgress};
use crate::lookahead::Ahead;
use crate::number::{NumberEnd, NumberProgress, NumberStep};
use crate::scan::{GapEnd, ScanState, StringEnd};
use crate::token::{StackValue, Token};

verus! {

impl ReaderModel {
    /// What it means that an operation does not depend on how the data is divided: `stop` is how it
    /// stopped, `resumed` how it stops when it is continued after more data was received, and
    /// `whole` how it stops if that data is available from the start.
    pub open spec fn continues<T>(
        stop: (ReaderModel, Outcome<T>),
        resumed: (ReaderModel, Outcome<T>),
        whole: (ReaderModel, Outcome<T>),
        bytes: Seq<u8>,
        eof: bool,
    ) -> bool {
        if stop.1 is NeedsInput {
            resumed == whole
        } else {
            whole == (stop.0.extended(bytes, eof), stop.1)
        }
    }

    /// More data can be received without exceeding the maximum length of a document.
    pub open spec fn has_room(self, bytes: Seq<u8>) -> bool {
        self.scan.total() + self.unaccounted() + bytes.len() <= u64::MAX
    }

    pub proof fn lemma_after_name_extended(self, bytes: Seq<u8>, eof: bool)
        requires
            !self.scan.pending.eof,
        ensures
            ReaderModel::continues(
                self.after_name(),
                self.after_name().0.extended(bytes, eof).after_name(),
                self.extended(bytes, eof).after_name(),
                bytes,
                eof,
            ),
    {
        let allow_comments = self.settings.allow_comments;
        self.scan.lemma_skip_gap(allow_comments);
        self.scan.lemma_skip_gap_extended(allow_comments, bytes, eof);
        let (scan, end) = self.scan.skip_gap(allow_comments);
        scan.pending.lemma_ahead_extended(bytes, eof);
        if end is Byte {
            assert(scan.extended(bytes, eof).pending.after(1) == scan.pending.after(1).extended(
                bytes,
                eof,
            ));
        }
    }

    pub proof fn lemma_peek_token_extended(self, byte: u8, bytes: Seq<u8>, eof: bool)
        requires
            !self.scan.pending.eof,
            self.scan.pending.ahead(0) == crate::lookahead::Ahead::Byte(byte),
        ensures
            ({
                let (next, outcome) = self.peek_token(byte);
                if outcome is NeedsInput {
                    next == self
                } else {
                    self.extended(bytes, eof).peek_token(byte) == (
                        next.extended(bytes, eof),
                        outcome,
                    )
                }
            }),
    {
        let pending = self.scan.pending;
        let context = self.context();
        pending.lemma_token(byte, context);
        pending.lemma_ahead_extended(bytes, eof);
        if !(pending.token(byte, context) is NeedsInput) {
            pending.lemma_token_extended(byte, context, bytes, eof);
            match pending.token(byte, context) {
                Token::Rejected { consumed, .. } => {
                    assert(pending.extended(bytes, eof).after(consumed as int) == pending.after(
                        consumed as int,
                    ).extended(bytes, eof));
                },
                Token::Found(peeked) => {
                    assert(pending.extended(bytes, eof).after(peeked.len() as int)
                        == pending.after(peeked.len() as int).extended(bytes, eof));
                },
                _ => {},
            }
        }
    }

    pub proof fn lemma_peek_after_comma_extended(self, bytes: Seq<u8>, eof: bool)
        requires
            !self.scan.pending.eof,
        ensures
            ReaderModel::continues(
                self.peek_after_comma(),
                self.peek_after_comma().0.extended(bytes, eof).peek_after_comma(),
                self.extended(bytes, eof).peek_after_comma(),
                bytes,
                eof,
            ),
    {
        let allow_comments = self.settings.allow_comments;
        self.scan.lemma_skip_gap(allow_comments);
        self.scan.lemma_skip_gap_extended(allow_comments, bytes, eof);
        let (scan, end) = self.scan.skip_gap(allow_comments);
        let next = ReaderModel { scan, ..self };
        if let GapEnd::Byte(byte) = end {
            next.lemma_peek_token_extended(byte, bytes, eof);
            // Scanning a gap again which ended in front of a token ends there at once
            scan.lemma_skip_gap_at_token(byte, allow_comments);
            scan.lemma_skip_gap_extended(allow_comments, bytes, eof);
        }
    }

    /// As [`lemma_peek_separated_extended`](Self::lemma_peek_separated_extended), if a comma is
    /// next.
    proof fn lemma_peek_comma_extended(self, bytes: Seq<u8>, eof: bool)
        requires
            !self.scan.pending.eof,
            self.comma is None,
            self.can_have_comma(),
            self.scan.skip_gap(self.settings.allow_comments).1 == GapEnd::Byte(crate::ascii::COMMA),
        ensures
            ReaderModel::continues(
                self.peek_separated(),
                self.peek_separated().0.extended(bytes, eof).peek_separated(),
                self.extended(bytes, eof).peek_separated(),
                bytes,
                eof,
            ),
            self.peek_separated().1 is NeedsInput ==> self.peek_separated().0.colon_read
                == self.colon_read && self.peek_separated().0.peeked == self.peeked,
    {
        let allow_comments = self.settings.allow_comments;
        self.scan.lemma_skip_gap(allow_comments);
        self.scan.lemma_skip_gap_extended(allow_comments, bytes, eof);
        let (scan, end) = self.scan.skip_gap(allow_comments);
        scan.pending.lemma_ahead_extended(bytes, eof);
        assert(scan.extended(bytes, eof).pending.after(1) == scan.pending.after(1).extended(
            bytes,
            eof,
        ));
        let behind = ReaderModel { scan: scan.consumed(1, 1), comma: Some(scan.spot), ..self };
        assert(self.peek_separated() == behind.peek_after_comma());
        let behind_extended = ReaderModel {
            scan: scan.extended(bytes, eof).consumed(1, 1),
            comma: Some(scan.spot),
            ..self.extended(bytes, eof)
        };
        assert(behind_extended == behind.extended(bytes, eof));
        assert(self.extended(bytes, eof).peek_separated() == behind_extended.peek_after_comma());
        behind.lemma_peek_after_comma_extended(bytes, eof);
        behind.lemma_peek_after_comma_pause();
        if behind.peek_after_comma().1 is NeedsInput {
            let next = behind.peek_after_comma().0.extended(bytes, eof);
            assert(next.comma is Some);
            assert(next.peek_separated() == next.peek_after_comma());
        }
    }

    proof fn lemma_peek_after_comma_pause(self)
        ensures
            self.peek_after_comma().1 is NeedsInput ==> self.peek_after_comma().0 == (ReaderModel {
                scan: self.peek_after_comma().0.scan,
                ..self
            }),
    {
    }

    /// As [`lemma_peek_separated_extended`](Self::lemma_peek_separated_extended), if another
    /// token is next.
    proof fn lemma_peek_other_extended(self, byte: u8, bytes: Seq<u8>, eof: bool)
        requires
            !self.scan.pending.eof,
            self.comma is None,
            self.scan.skip_gap(self.settings.allow_comments).1 == GapEnd::Byte(byte),
            byte != crate::ascii::COMMA,
        ensures
            ReaderModel::continues(
                self.peek_separated(),
                self.peek_separated().0.extended(bytes, eof).peek_separated(),
                self.extended(bytes, eof).peek_separated(),
                bytes,
                eof,
            ),
            self.peek_separated().1 is NeedsInput ==> self.peek_separated().0.colon_read
                == self.colon_read && self.peek_separated().0.peeked == self.peeked,
    {
        let allow_comments = self.settings.allow_comments;
        self.scan.lemma_skip_gap(allow_comments);
        self.scan.lemma_skip_gap_extended(allow_comments, bytes, eof);
        let (scan, end) = self.scan.skip_gap(allow_comments);
        let next = ReaderModel { scan, ..self };
        assert(self.peek_separated() == next.peek_token(byte));
        assert(self.extended(bytes, eof).peek_separated() == next.extended(bytes, eof).peek_token(
            byte,
        ));
        next.lemma_peek_token_extended(byte, bytes, eof);
        if next.peek_token(byte).1 is NeedsInput {
            scan.lemma_skip_gap_at_token(byte, allow_comments);
            scan.lemma_skip_gap_extended(allow_comments, bytes, eof);
            assert(next.extended(bytes, eof).peek_separated() == next.extended(
                bytes,
                eof,
            ).peek_token(byte));
        }
    }

    pub proof fn lemma_peek_separated_extended(self, bytes: Seq<u8>, eof: bool)
        requires
            !self.scan.pending.eof,
        ensures
            ReaderModel::continues(
                self.peek_separated(),
                self.peek_separated().0.extended(bytes, eof).peek_separated(),
                self.extended(bytes, eof).peek_separated(),
                bytes,
                eof,
            ),
            self.peek_separated().1 is NeedsInput ==> self.peek_separated().0.colon_read
                == self.colon_read && self.peek_separated().0.peeked == self.peeked,
    {
        if self.comma is Some {
            self.lemma_peek_after_comma_extended(bytes, eof);
            self.lemma_peek_after_comma_pause();
        } else {
            let allow_comments = self.settings.allow_comments;
            let (scan, end) = self.scan.skip_gap(allow_comments);
            match end {
                GapEnd::Byte(byte) => {
                    if byte != crate::ascii::COMMA {
                        self.lemma_peek_other_extended(byte, bytes, eof);
                    } else if self.can_have_comma() {
                        self.lemma_peek_comma_extended(bytes, eof);
                    } else {
                        self.scan.lemma_skip_gap_extended(allow_comments, bytes, eof);
                    }
                },
                _ => {
                    self.scan.lemma_skip_gap_extended(allow_comments, bytes, eof);
                    self.scan.lemma_skip_gap(allow_comments);
                },
            }
        }
    }

    pub proof fn lemma_peek_optional_extended(self, bytes: Seq<u8>, eof: bool)
        requires
            !self.scan.pending.eof,
        ensures
            ReaderModel::continues(
                self.peek_optional(),
                self.peek_optional().0.extended(bytes, eof).peek_optional(),
                self.extended(bytes, eof).peek_optional(),
                bytes,
                eof,
            ),
    {
        if self.peeked is None {
            if self.expects_member_value() && !self.colon_read {
                self.lemma_after_name_extended(bytes, eof);
                self.scan.lemma_skip_gap(self.settings.allow_comments);
                let (next, outcome) = self.after_name();
                if outcome is Ready {
                    next.lemma_peek_separated_extended(bytes, eof);
                }
            } else {
                self.lemma_peek_separated_extended(bytes, eof);
            }
        }
    }

    pub proof fn lemma_peek_internal_extended(self, bytes: Seq<u8>, eof: bool)
        requires
            !self.scan.pending.eof,
        ensures
            ReaderModel::continues(
                self.peek_internal(),
                self.peek_internal().0.extended(bytes, eof).peek_internal(),
                self.extended(bytes, eof).peek_internal(),
                bytes,
                eof,
            ),
    {
        self.lemma_peek_optional_extended(bytes, eof);
    }

    pub proof fn lemma_peek_value_extended(self, bytes: Seq<u8>, eof: bool)
        requires
            !self.scan.pending.eof,
        ensures
            ReaderModel::continues(
                self.peek_value(),
                self.peek_value().0.extended(bytes, eof).peek_value(),
                self.extended(bytes, eof).peek_value(),
                bytes,
                eof,
            ),
    {
        self.lemma_peek_internal_extended(bytes, eof);
    }

    pub proof fn lemma_start_value_extended(
        self,
        expected: ValueType,
        check_depth: bool,
        bytes: Seq<u8>,
        eof: bool,
    )
        requires
            !self.scan.pending.eof,
        ensures
            ReaderModel::continues(
                self.start_value(expected, check_depth),
                self.start_value(expected, check_depth).0.extended(bytes, eof).start_value(
                    expected,
                    check_depth,
                ),
                self.extended(bytes, eof).start_value(expected, check_depth),
                bytes,
                eof,
            ),
    {
        self.lemma_peek_internal_extended(bytes, eof);
    }

    pub proof fn lemma_begin_container_extended(
        self,
        container: StackValue,
        bytes: Seq<u8>,
        eof: bool,
    )
        requires
            !self.scan.pending.eof,
        ensures
            ReaderModel::continues(
                self.begin_container(container),
                self.begin_container(container).0.extended(bytes, eof).begin_container(container),
                self.extended(bytes, eof).begin_container(container),
                bytes,
                eof,
            ),
    {
        self.lemma_start_value_extended(ValueType::Array, true, bytes, eof);
        self.lemma_start_value_extended(ValueType::Object, true, bytes, eof);
    }

    pub proof fn lemma_end_container_extended(self, container: StackValue, bytes: Seq<u8>, eof: bool)
        requires
            !self.scan.pending.eof,
        ensures
            ReaderModel::continues(
                self.end_container(container),
                self.end_container(container).0.extended(bytes, eof).end_container(container),
                self.extended(bytes, eof).end_container(container),
                bytes,
                eof,
            ),
    {
        self.lemma_peek_internal_extended(bytes, eof);
    }

    pub proof fn lemma_check_next_extended(self, bytes: Seq<u8>, eof: bool)
        requires
            !self.scan.pending.eof,
            self.can_peek(),
        ensures
            ReaderModel::continues(
                self.check_next(),
                self.check_next().0.extended(bytes, eof).check_next(),
                self.extended(bytes, eof).check_next(),
                bytes,
                eof,
            ),
    {
        self.lemma_check_next();
        self.lemma_peek_internal_extended(bytes, eof);
        self.lemma_peek_optional_extended(bytes, eof);
    }

    pub proof fn lemma_read_bool_extended(self, bytes: Seq<u8>, eof: bool)
        requires
            !self.scan.pending.eof,
        ensures
            ReaderModel::continues(
                self.read_bool(),
                self.read_bool().0.extended(bytes, eof).read_bool(),
                self.extended(bytes, eof).read_bool(),
                bytes,
                eof,
            ),
    {
        self.lemma_start_value_extended(ValueType::Boolean, false, bytes, eof);
    }

    pub proof fn lemma_read_null_extended(self, bytes: Seq<u8>, eof: bool)
        requires
            !self.scan.pending.eof,
        ensures
            ReaderModel::continues(
                self.read_null(),
                self.read_null().0.extended(bytes, eof).read_null(),
                self.extended(bytes, eof).read_null(),
                bytes,
                eof,
            ),
    {
        self.lemma_start_value_extended(ValueType::Null, false, bytes, eof);
    }
}

impl ReaderModel {
    // ---- Names, strings and numbers ----

    pub proof fn lemma_before_name_extended(self, bytes: Seq<u8>, eof: bool)
        requires
            !self.scan.pending.eof,
            self.can_peek(),
        ensures
            ReaderModel::continues(
                self.before_name(),
                self.before_name().0.extended(bytes, eof).before_name(),
                self.extended(bytes, eof).before_name(),
                bytes,
                eof,
            ),
    {
        self.lemma_check_next_extended(bytes, eof);
    }

    /// The closing double quote is still next when more data is available.
    proof fn lemma_string_closed_extended(self, bytes: Seq<u8>, eof: bool)
        requires
            !self.scan.pending.eof,
            self.scan.pending.bytes.len() > 0,
        ensures
            self.extended(bytes, eof).string_closed() == self.string_closed().extended(bytes, eof),
    {
        self.scan.pending.lemma_ahead_extended(bytes, eof);
        assert(self.scan.pending.extended(bytes, eof).after(1) == self.scan.pending.after(
            1,
        ).extended(bytes, eof));
    }

    pub proof fn lemma_continue_name_extended(self, bytes: Seq<u8>, eof: bool)
        requires
            !self.scan.pending.eof,
        ensures
            ReaderModel::continues(
                self.continue_name(),
                self.continue_name().0.extended(bytes, eof).continue_name(),
                self.extended(bytes, eof).continue_name(),
                bytes,
                eof,
            ),
    {
        self.scan.lemma_read_string();
        self.scan.lemma_read_string_extended(bytes, eof);
        let (scan, end) = self.scan.read_string();
        if end == StringEnd::Quote {
            ReaderModel { scan, ..self }.lemma_string_closed_extended(bytes, eof);
        }
    }

    pub proof fn lemma_read_name_extended(self, keep: bool, bytes: Seq<u8>, eof: bool)
        requires
            !self.scan.pending.eof,
            self.can_resume(),
            self.path is Some ==> keep,
            self.doing is Idle && self.expects_member_name || self.doing is ReadingName,
        ensures
            ReaderModel::continues(
                self.read_name(keep),
                self.read_name(keep).0.extended(bytes, eof).read_name(keep),
                self.extended(bytes, eof).read_name(keep),
                bytes,
                eof,
            ),
    {
        if self.doing is ReadingName {
            self.lemma_continue_name_extended(bytes, eof);
        } else {
            self.lemma_before_name();
            self.lemma_before_name_extended(bytes, eof);
            let (next, outcome) = self.before_name();
            if outcome is Ready {
                next.reading(Doing::ReadingName, keep).lemma_continue_name_extended(bytes, eof);
            }
        }
    }

    pub proof fn lemma_pass_name_extended(self, bytes: Seq<u8>, eof: bool)
        requires
            !self.scan.pending.eof,
            self.can_resume(),
            self.doing is Idle && self.expects_member_name || self.doing is ReadingName,
        ensures
            ReaderModel::continues(
                self.pass_name(),
                self.pass_name().0.extended(bytes, eof).pass_name(),
                self.extended(bytes, eof).pass_name(),
                bytes,
                eof,
            ),
    {
        let keep = self.path is Some;
        self.lemma_read_name_extended(keep, bytes, eof);
        self.lemma_read_name_path(keep);
    }

    /// Reading a member name changes whether the path is tracked only if it fails.
    proof fn lemma_read_name_path(self, keep: bool)
        requires
            self.can_resume(),
            self.path is Some ==> keep,
            self.doing is Idle && self.expects_member_name || self.doing is ReadingName,
        ensures
            self.read_name(keep).0.path is Some == self.path is Some,
    {
        self.lemma_read_name(keep);
    }

    pub proof fn lemma_continue_string_extended(self, bytes: Seq<u8>, eof: bool)
        requires
            !self.scan.pending.eof,
        ensures
            ReaderModel::continues(
                self.continue_string(),
                self.continue_string().0.extended(bytes, eof).continue_string(),
                self.extended(bytes, eof).continue_string(),
                bytes,
                eof,
            ),
    {
        self.scan.lemma_read_string();
        self.scan.lemma_read_string_extended(bytes, eof);
        let (scan, end) = self.scan.read_string();
        if end == StringEnd::Quote {
            ReaderModel { scan, ..self }.lemma_string_closed_extended(bytes, eof);
        }
    }

    pub proof fn lemma_read_string_extended(self, keep: bool, bytes: Seq<u8>, eof: bool)
        requires
            !self.scan.pending.eof,
            self.can_resume(),
            self.doing is Idle && !self.expects_member_name || self.doing is ReadingString,
        ensures
            ReaderModel::continues(
                self.read_string(keep),
                self.read_string(keep).0.extended(bytes, eof).read_string(keep),
                self.extended(bytes, eof).read_string(keep),
                bytes,
                eof,
            ),
    {
        if self.doing is ReadingString {
            self.lemma_continue_string_extended(bytes, eof);
        } else {
            self.lemma_start_value(ValueType::String, false);
            self.lemma_start_value_extended(ValueType::String, false, bytes, eof);
            let (next, outcome) = self.start_value(ValueType::String, false);
            if outcome is Ready {
                next.reading(Doing::ReadingString, keep).lemma_continue_string_extended(bytes, eof);
            }
        }
    }

    pub proof fn lemma_continue_number_extended(
        self,
        progress: NumberProgress,
        bytes: Seq<u8>,
        eof: bool,
    )
        requires
            !self.scan.pending.eof,
            progress.sound(),
        ensures
            ({
                let (next, outcome) = self.continue_number(progress);
                let whole = self.extended(bytes, eof).continue_number(progress);
                if outcome is NeedsInput {
                    &&& next.doing matches Doing::ReadingNumber(advanced)
                    &&& next.extended(bytes, eof).continue_number(advanced) == whole
                } else {
                    whole == (next.extended(bytes, eof), outcome)
                }
            }),
    {
        self.scan.lemma_read_number(progress);
        self.scan.lemma_read_number_end(progress);
        self.scan.lemma_read_number_extended(progress, bytes, eof);
        let (scan, advanced, end) = self.scan.read_number(progress);
        scan.pending.lemma_ahead_extended(bytes, eof);
        if scan.pending.bytes.len() > 0 {
            assert(scan.extended(bytes, eof).pending.ahead(0) == scan.pending.ahead(0));
        }
    }

    pub proof fn lemma_read_number_extended(self, keep: bool, bytes: Seq<u8>, eof: bool)
        requires
            !self.scan.pending.eof,
            self.can_resume(),
            self.doing is Idle && !self.expects_member_name || self.doing is ReadingNumber,
        ensures
            ReaderModel::continues(
                self.read_number(keep),
                self.read_number(keep).0.extended(bytes, eof).read_number(keep),
                self.extended(bytes, eof).read_number(keep),
                bytes,
                eof,
            ),
    {
        match self.doing {
            Doing::ReadingNumber(progress) => {
                self.lemma_continue_number_extended(progress, bytes, eof);
            },
            _ => {
                self.lemma_start_value(ValueType::Number, false);
                self.lemma_start_value_extended(ValueType::Number, false, bytes, eof);
                let (next, outcome) = self.start_value(ValueType::Number, false);
                if outcome is Ready {
                    let progress = NumberProgress::start();
                    let reading = next.reading(Doing::ReadingNumber(progress), keep);
                    reading.lemma_continue_number_extended(progress, bytes, eof);
                    assert(next.extended(bytes, eof).reading(Doing::ReadingNumber(progress), keep)
                        == reading.extended(bytes, eof));
                }
            },
        }
    }

    // ---- Skipping ----

    /// As [`lemma_skip_item_extended`](Self::lemma_skip_item_extended), if the type of the value
    /// is known already.
    proof fn lemma_skip_typed_extended(self, value_type: ValueType, bytes: Seq<u8>, eof: bool)
        requires
            !self.scan.pending.eof,
            self.can_peek(),
            !self.expects_member_name,
            self.peeked is Some,
            !self.peeked->0.is_end(),
            self.peeked->0.value_type() == value_type,
        ensures
            ({
                let (next, outcome) = self.skip_typed(value_type);
                let whole = self.extended(bytes, eof).skip_typed(value_type);
                if outcome is NeedsInput {
                    &&& next.doing is ReadingString || next.doing is ReadingNumber
                    &&& next.extended(bytes, eof).skip_item() == whole
                } else {
                    whole == (next.extended(bytes, eof), outcome)
                }
            }),
    {
        self.lemma_peeked_value_is_at_hand(value_type);
        match value_type {
            ValueType::Array => {
                self.lemma_begin_container_extended(StackValue::Array, bytes, eof);
            },
            ValueType::Object => {
                self.lemma_begin_container_extended(StackValue::Object, bytes, eof);
            },
            ValueType::String => {
                self.lemma_read_string(false);
                self.lemma_read_string_extended(false, bytes, eof);
            },
            ValueType::Number => {
                self.lemma_read_number(false);
                self.lemma_read_number_extended(false, bytes, eof);
            },
            ValueType::Boolean => self.lemma_read_bool_extended(bytes, eof),
            ValueType::Null => self.lemma_read_null_extended(bytes, eof),
        }
    }

    pub proof fn lemma_skip_item_extended(self, bytes: Seq<u8>, eof: bool)
        requires
            !self.scan.pending.eof,
            self.can_resume(),
            !self.expects_member_name,
            self.doing is Idle || self.doing is ReadingString || self.doing is ReadingNumber,
        ensures
            ReaderModel::continues(
                self.skip_item(),
                self.skip_item().0.extended(bytes, eof).skip_item(),
                self.extended(bytes, eof).skip_item(),
                bytes,
                eof,
            ),
            self.skip_item().1 is NeedsInput && self.skip_item().0.doing is Idle
                ==> self.doing is Idle && self.peeked is None && self.skip_item().0.peeked is None,
    {
        if self.doing is ReadingString {
            self.lemma_read_string(false);
            self.lemma_read_string_extended(false, bytes, eof);
        } else if self.doing is ReadingNumber {
            self.lemma_read_number(false);
            self.lemma_read_number_extended(false, bytes, eof);
        } else {
            self.lemma_peek_value();
            self.lemma_peek_value_extended(bytes, eof);
            let (next, outcome) = self.peek_value();
            if let Outcome::Ready(value_type) = outcome {
                assert(self.skip_item() == next.skip_typed(value_type));
                assert(self.extended(bytes, eof).skip_item() == next.extended(
                    bytes,
                    eof,
                ).skip_typed(value_type));
                next.lemma_skip_typed_extended(value_type, bytes, eof);
            }
        }
    }

    /// The start of a value which was peeked at can be consumed without further data.
    proof fn lemma_peeked_value_is_at_hand(self, value_type: ValueType)
        requires
            self.can_peek(),
            self.peeked is Some,
            !self.peeked->0.is_end(),
            !self.peeked->0.is_for_name(),
            self.peeked->0.value_type() == value_type,
        ensures
            forall|check_depth: bool|
                !((#[trigger] self.start_value(value_type, check_depth)).1 is NeedsInput),
            self.start_value(value_type, false) == (
                self.consume_peeked(),
                Outcome::Ready(self.peeked->0),
            ),
            value_type is Array ==> !(self.begin_container(StackValue::Array).1 is NeedsInput),
            value_type is Object ==> !(self.begin_container(StackValue::Object).1 is NeedsInput),
            value_type is Boolean ==> !(self.read_bool().1 is NeedsInput),
            value_type is Null ==> !(self.read_null().1 is NeedsInput),
            value_type is String && self.read_string(false).1 is NeedsInput
                ==> self.read_string(false).0.doing is ReadingString,
            value_type is Number && self.read_number(false).1 is NeedsInput
                ==> self.read_number(false).0.doing is ReadingNumber,
            value_type is Number && self.read_number(true).1 is NeedsInput
                ==> self.read_number(true).0.doing is ReadingNumber,
    {
    }
}

impl ReaderModel {
    /// As [`lemma_skip_step_extended`](Self::lemma_skip_step_extended), in front of an element.
    proof fn lemma_skip_element_extended(self, base: nat, bytes: Seq<u8>, eof: bool)
        requires
            !self.scan.pending.eof,
            self.can_skip(base),
            self.doing is Idle,
            self.stack.len() > base,
            !self.expects_member_value(),
        ensures
            ReaderModel::continues(
                self.skip_step(base),
                self.skip_step(base).0.extended(bytes, eof).skip_step(base),
                self.extended(bytes, eof).skip_step(base),
                bytes,
                eof,
            ),
    {
        self.lemma_check_next();
        self.lemma_check_next_extended(bytes, eof);
        let (next, outcome) = self.check_next();
        if let Outcome::Ready(found) = outcome {
            let extended = next.extended(bytes, eof);
            assert(self.extended(bytes, eof).check_next() == (extended, outcome));
            if !found {
                next.lemma_end_container_extended(next.stack.last(), bytes, eof);
                next.lemma_peeked_token_is_at_hand();
            } else if next.expects_member_name {
                next.lemma_pass_name();
                next.lemma_pass_name_extended(bytes, eof);
                next.lemma_peeked_token_is_at_hand();
            } else {
                next.lemma_skip_item();
                next.lemma_skip_item_extended(bytes, eof);
            }
        }
    }

    /// A token which was peeked at can be consumed without further data.
    proof fn lemma_peeked_token_is_at_hand(self)
        requires
            self.can_peek(),
            self.peeked is Some,
        ensures
            forall|container: StackValue|
                !((#[trigger] self.end_container(container)).1 is NeedsInput),
            self.expects_member_name && self.pass_name().1 is NeedsInput ==> self.pass_name().0.doing
                is ReadingName,
            self.expects_member_name && self.read_name(true).1 is NeedsInput ==> self.read_name(
                true,
            ).0.doing is ReadingName,
    {
    }

    pub proof fn lemma_skip_step_extended(self, base: nat, bytes: Seq<u8>, eof: bool)
        requires
            !self.scan.pending.eof,
            self.can_skip(base),
        ensures
            ReaderModel::continues(
                self.skip_step(base),
                self.skip_step(base).0.extended(bytes, eof).skip_step(base),
                self.extended(bytes, eof).skip_step(base),
                bytes,
                eof,
            ),
    {
        if self.doing is ReadingName {
            self.lemma_pass_name();
            self.lemma_pass_name_extended(bytes, eof);
            assert(self.pass_name().1 is NeedsInput ==> self.pass_name().0.doing is ReadingName) by {
                self.lemma_continue_name();
            }
        } else if self.doing is Idle && self.stack.len() > base && !self.expects_member_value() {
            self.lemma_skip_element_extended(base, bytes, eof);
        } else {
            self.lemma_skip_item();
            self.lemma_skip_item_extended(bytes, eof);
        }
    }

    pub proof fn lemma_can_skip_extended(self, base: nat, bytes: Seq<u8>, eof: bool)
        requires
            self.can_skip(base),
            self.has_room(bytes),
        ensures
            self.extended(bytes, eof).can_skip(base),
    {
    }

    pub proof fn lemma_skip_rest_extended(self, base: nat, bytes: Seq<u8>, eof: bool)
        requires
            !self.scan.pending.eof,
            self.can_skip(base),
            self.has_room(bytes),
        ensures
            ReaderModel::continues(
                self.skip_rest(base),
                self.skip_rest(base).0.extended(bytes, eof).skip_rest(base),
                self.extended(bytes, eof).skip_rest(base),
                bytes,
                eof,
            ),
        decreases self.remaining(),
    {
        self.lemma_skip_step(base);
        self.lemma_skip_step_extended(base, bytes, eof);
        self.lemma_can_skip_extended(base, bytes, eof);
        self.extended(bytes, eof).lemma_skip_step(base);
        let (next, outcome) = self.skip_step(base);
        if outcome is NeedsInput {
            next.lemma_can_skip_extended(base, bytes, eof);
            next.extended(bytes, eof).lemma_skip_step(base);
        } else if outcome is Ready && next.stack.len() > base {
            next.lemma_skip_rest_extended(base, bytes, eof);
        }
    }

    pub proof fn lemma_pass_value_extended(self, bytes: Seq<u8>, eof: bool)
        requires
            !self.scan.pending.eof,
            self.can_pass_value(),
            self.has_room(bytes),
        ensures
            ReaderModel::continues(
                self.pass_value(),
                self.pass_value().0.extended(bytes, eof).pass_value(),
                self.extended(bytes, eof).pass_value(),
                bytes,
                eof,
            ),
    {
        let base = self.skip_depth();
        let skipping = ReaderModel { skip_base: Some(base), ..self };
        skipping.lemma_skip_rest(base);
        skipping.lemma_skip_rest_extended(base, bytes, eof);
        assert(self.pass_value() == skipping.skip_rest(base));
        assert(self.extended(bytes, eof).pass_value() == skipping.extended(bytes, eof).skip_rest(
            base,
        ));
    }

    /// As [`lemma_top_level_step_extended`](Self::lemma_top_level_step_extended), in front of an
    /// element.
    proof fn lemma_top_level_element_extended(self, bytes: Seq<u8>, eof: bool)
        requires
            !self.scan.pending.eof,
            self.can_pass_to_top_level(),
            self.has_room(bytes),
            self.doing is Idle,
            self.skip_base is None,
            !self.expects_member_value(),
            self.stack.len() > 0,
        ensures
            ReaderModel::continues(
                self.top_level_step(),
                self.top_level_step().0.extended(bytes, eof).top_level_step(),
                self.extended(bytes, eof).top_level_step(),
                bytes,
                eof,
            ),
    {
        self.lemma_check_next();
        self.lemma_check_next_extended(bytes, eof);
        let (next, outcome) = self.check_next();
        if let Outcome::Ready(found) = outcome {
            assert(self.extended(bytes, eof).check_next() == (next.extended(bytes, eof), outcome));
            if !found {
                next.lemma_end_container_extended(next.stack.last(), bytes, eof);
                next.lemma_peeked_token_is_at_hand();
            } else if next.expects_member_name {
                next.lemma_pass_name();
                next.lemma_pass_name_extended(bytes, eof);
                next.lemma_peeked_token_is_at_hand();
            } else {
                next.lemma_pass_value();
                next.lemma_pass_value_extended(bytes, eof);
            }
        }
    }

    pub proof fn lemma_top_level_step_extended(self, bytes: Seq<u8>, eof: bool)
        requires
            !self.scan.pending.eof,
            self.can_pass_to_top_level(),
            self.has_room(bytes),
        ensures
            ReaderModel::continues(
                self.top_level_step(),
                self.top_level_step().0.extended(bytes, eof).top_level_step(),
                self.extended(bytes, eof).top_level_step(),
                bytes,
                eof,
            ),
    {
        if self.doing is ReadingName && self.skip_base is None {
            self.lemma_pass_name();
            self.lemma_pass_name_extended(bytes, eof);
            self.lemma_continue_name();
        } else if self.skip_base is Some || self.expects_member_value() {
            self.lemma_pass_value();
            self.lemma_pass_value_extended(bytes, eof);
        } else if self.stack.len() > 0 {
            self.lemma_top_level_element_extended(bytes, eof);
        }
    }

    pub proof fn lemma_can_pass_to_top_level_extended(self, bytes: Seq<u8>, eof: bool)
        requires
            self.can_pass_to_top_level(),
            self.has_room(bytes),
        ensures
            self.extended(bytes, eof).can_pass_to_top_level(),
    {
    }

    pub proof fn lemma_pass_to_top_level_extended(self, bytes: Seq<u8>, eof: bool)
        requires
            !self.scan.pending.eof,
            self.can_pass_to_top_level(),
            self.has_room(bytes),
        ensures
            ReaderModel::continues(
                self.pass_to_top_level(),
                self.pass_to_top_level().0.extended(bytes, eof).pass_to_top_level(),
                self.extended(bytes, eof).pass_to_top_level(),
                bytes,
                eof,
            ),
        decreases self.remaining(),
    {
        self.lemma_top_level_step();
        self.lemma_top_level_step_extended(bytes, eof);
        self.lemma_can_pass_to_top_level_extended(bytes, eof);
        self.extended(bytes, eof).lemma_top_level_step();
        let (next, outcome) = self.top_level_step();
        if outcome is NeedsInput {
            next.lemma_can_pass_to_top_level_extended(bytes, eof);
            next.extended(bytes, eof).lemma_top_level_step();
        } else if outcome == Outcome::Ready(false) {
            next.lemma_pass_to_top_level_extended(bytes, eof);
        }
    }

    // ---- Transferring ----

    pub proof fn lemma_transfer_piece_extended(self, bytes: Seq<u8>, eof: bool)
        requires
            !self.scan.pending.eof,
            self.scan.value is Some,
            self.scan.value->0.len() <= 64,
        ensures
            ReaderModel::continues(
                self.transfer_piece(),
                self.transfer_piece().0.extended(bytes, eof).transfer_piece(),
                self.extended(bytes, eof).transfer_piece(),
                bytes,
                eof,
            ),
    {
        self.scan.lemma_read_piece();
        self.scan.lemma_read_piece_extended(bytes, eof);
        let (scan, end) = self.scan.read_piece();
        if end == Some(StringEnd::Quote) {
            ReaderModel { scan, ..self }.lemma_string_closed_extended(bytes, eof);
        }
    }

    /// As [`lemma_transfer_value_extended`](Self::lemma_transfer_value_extended), if the type of
    /// the value is known already.
    proof fn lemma_transfer_typed_extended(self, value_type: ValueType, bytes: Seq<u8>, eof: bool)
        requires
            !self.scan.pending.eof,
            self.can_peek(),
            !self.expects_member_name,
            self.peeked is Some,
            !self.peeked->0.is_end(),
            self.peeked->0.value_type() == value_type,
        ensures
            ({
                let (next, outcome) = self.transfer_typed(value_type);
                let whole = self.extended(bytes, eof).transfer_typed(value_type);
                if outcome is NeedsInput {
                    &&& next.doing is ReadingNumber
                    &&& next.extended(bytes, eof).transfer_number() == whole
                } else {
                    whole == (next.extended(bytes, eof), outcome)
                }
            }),
    {
        self.lemma_peeked_value_is_at_hand(value_type);
        match value_type {
            ValueType::Array => {
                self.lemma_begin_container_extended(StackValue::Array, bytes, eof);
            },
            ValueType::Object => {
                self.lemma_begin_container_extended(StackValue::Object, bytes, eof);
            },
            ValueType::String => {
                self.lemma_start_value_extended(ValueType::String, false, bytes, eof);
            },
            ValueType::Number => {
                self.lemma_read_number(true);
                self.lemma_read_number_extended(true, bytes, eof);
            },
            ValueType::Boolean => self.lemma_read_bool_extended(bytes, eof),
            ValueType::Null => self.lemma_read_null_extended(bytes, eof),
        }
    }

    pub proof fn lemma_transfer_value_extended(self, bytes: Seq<u8>, eof: bool)
        requires
            !self.scan.pending.eof,
            self.can_peek(),
            !self.expects_member_name,
        ensures
            ({
                let (next, outcome) = self.transfer_value();
                let whole = self.extended(bytes, eof).transfer_value();
                if outcome is NeedsInput {
                    if next.doing is Idle {
                        &&& self.peeked is None
                        &&& self.same_but_token(next)
                        &&& next.extended(bytes, eof).transfer_value() == whole
                    } else {
                        &&& next.doing is ReadingNumber
                        &&& next.extended(bytes, eof).transfer_number() == whole
                    }
                } else {
                    whole == (next.extended(bytes, eof), outcome)
                }
            }),
    {
        self.lemma_peek_value();
        self.lemma_peek_value_extended(bytes, eof);
        let (next, outcome) = self.peek_value();
        if let Outcome::Ready(value_type) = outcome {
            assert(self.transfer_value() == next.transfer_typed(value_type));
            assert(self.extended(bytes, eof).transfer_value() == next.extended(
                bytes,
                eof,
            ).transfer_typed(value_type));
            next.lemma_transfer_typed_extended(value_type, bytes, eof);
        }
    }

    /// As [`lemma_transfer_token_extended`](Self::lemma_transfer_token_extended), behind the start
    /// of the value.
    proof fn lemma_transfer_element_extended(
        self,
        transfer: TransferProgress,
        bytes: Seq<u8>,
        eof: bool,
    )
        requires
            !self.scan.pending.eof,
            self.can_transfer(transfer),
            self.doing is Idle,
            self.stack.len() > transfer.base,
            !self.expects_member_value(),
        ensures
            ({
                let (next, outcome) = self.transfer_token(transfer);
                let whole = self.extended(bytes, eof).transfer_token(transfer);
                if outcome is NeedsInput {
                    next.extended(bytes, eof).transfer_step(transfer) == whole
                } else {
                    whole == (next.extended(bytes, eof), outcome)
                }
            }),
    {
        self.lemma_check_next();
        self.lemma_check_next_extended(bytes, eof);
        let (next, outcome) = self.check_next();
        if let Outcome::Ready(found) = outcome {
            let extended = next.extended(bytes, eof);
            assert(self.extended(bytes, eof).check_next() == (extended, outcome));
            if !found {
                assert(self.transfer_token(transfer) == next.transfer_end());
                assert(self.extended(bytes, eof).transfer_token(transfer)
                    == extended.transfer_end());
                next.lemma_end_container_extended(next.stack.last(), bytes, eof);
                next.lemma_peeked_token_is_at_hand();
            } else if next.expects_member_name {
                assert(self.transfer_token(transfer) == next.transfer_name());
                assert(self.extended(bytes, eof).transfer_token(transfer)
                    == extended.transfer_name());
                next.lemma_read_name(true);
                next.lemma_read_name_extended(true, bytes, eof);
                next.lemma_peeked_token_is_at_hand();
            } else {
                assert(self.transfer_token(transfer) == next.transfer_value());
                assert(self.extended(bytes, eof).transfer_token(transfer)
                    == extended.transfer_value());
                next.lemma_transfer_value_extended(bytes, eof);
            }
        }
    }

    pub proof fn lemma_transfer_token_extended(
        self,
        transfer: TransferProgress,
        bytes: Seq<u8>,
        eof: bool,
    )
        requires
            !self.scan.pending.eof,
            self.can_transfer(transfer),
            self.doing is Idle,
        ensures
            ({
                let (next, outcome) = self.transfer_token(transfer);
                let whole = self.extended(bytes, eof).transfer_token(transfer);
                if outcome is NeedsInput {
                    next.extended(bytes, eof).transfer_step(transfer) == whole
                } else {
                    whole == (next.extended(bytes, eof), outcome)
                }
            }),
    {
        if transfer.started && self.stack.len() <= transfer.base {
        } else if self.stack.len() > transfer.base && !self.expects_member_value() {
            self.lemma_transfer_element_extended(transfer, bytes, eof);
        } else {
            assert(self.transfer_token(transfer) == self.transfer_value());
            assert(self.extended(bytes, eof).transfer_token(transfer) == self.extended(
                bytes,
                eof,
            ).transfer_value());
            self.lemma_transfer_value_extended(bytes, eof);
        }
    }

    pub proof fn lemma_transfer_step_extended(
        self,
        transfer: TransferProgress,
        bytes: Seq<u8>,
        eof: bool,
    )
        requires
            !self.scan.pending.eof,
            self.can_transfer(transfer),
        ensures
            ({
                let (next, outcome) = self.transfer_step(transfer);
                let whole = self.extended(bytes, eof).transfer_step(transfer);
                if outcome is NeedsInput {
                    next.extended(bytes, eof).transfer_step(transfer) == whole
                } else {
                    whole == (next.extended(bytes, eof), outcome)
                }
            }),
    {
        match self.doing {
            Doing::TransferringString => {
                self.lemma_transfer_piece(transfer);
                self.lemma_transfer_piece_extended(bytes, eof);
            },
            Doing::StringTransferred => {
                let idle = ReaderModel { doing: Doing::Idle, ..self };
                idle.lemma_value_ended();
                idle.value_ended().lemma_transfer_token_extended(transfer, bytes, eof);
            },
            Doing::ReadingName => {
                self.lemma_read_name(true);
                self.lemma_read_name_extended(true, bytes, eof);
            },
            Doing::ReadingNumber(_) => {
                self.lemma_read_number(true);
                self.lemma_read_number_extended(true, bytes, eof);
            },
            _ => self.lemma_transfer_token_extended(transfer, bytes, eof),
        }
    }

    // ---- Trailing whitespace ----

    pub proof fn lemma_pass_trailing_whitespace_extended(self, bytes: Seq<u8>, eof: bool)
        requires
            !self.scan.pending.eof,
        ensures
            ReaderModel::continues(
                self.pass_trailing_whitespace(),
                self.pass_trailing_whitespace().0.extended(bytes, eof).pass_trailing_whitespace(),
                self.extended(bytes, eof).pass_trailing_whitespace(),
                bytes,
                eof,
            ),
    {
        let allow_comments = self.settings.allow_comments;
        self.scan.lemma_skip_gap(allow_comments);
        self.scan.lemma_skip_gap_extended(allow_comments, bytes, eof);
    }
}

impl ScanState {
    /// In front of a token there is no gap.
    pub proof fn lemma_skip_gap_at_token(self, byte: u8, allow_comments: bool)
        requires
            self.gap is Outside,
            self.pending.ahead(0) == crate::lookahead::Ahead::Byte(byte),
            !crate::ascii::is_blank(byte),
            byte != crate::ascii::SLASH,
        ensures
            self.skip_gap(allow_comments) == (self, GapEnd::Byte(byte)),
    {
    }

    /// Reading a piece of a string does not depend on how the data is divided.
    pub proof fn lemma_read_piece_extended(self, bytes: Seq<u8>, eof: bool)
        requires
            !self.pending.eof,
            self.value is Some,
        ensures
            ({
                let (next, end) = self.read_piece();
                let extended = self.extended(bytes, eof);
                if end == Some(StringEnd::NeedsInput) {
                    next.extended(bytes, eof).read_piece() == extended.read_piece()
                } else {
                    extended.read_piece() == (next.extended(bytes, eof), end)
                }
            }),
        decreases self.pending.bytes.len(),
    {
        self.lemma_string_step();
        self.lemma_string_step_extended(bytes, eof);
        let (next, end) = self.string_step();
        self.extended(bytes, eof).lemma_string_step();
        if end is None {
            next.lemma_read_piece_extended(bytes, eof);
        }
    }

    /// A complete number is followed by some byte, unless the data ends.
    pub proof fn lemma_read_number_end(self, progress: NumberProgress)
        ensures
            ({
                let (next, advanced, end) = self.read_number(progress);
                end == NumberEnd::Complete && !self.pending.eof ==> next.pending.bytes.len() > 0
            }),
        decreases self.pending.bytes.len(),
    {
        if let Ahead::Byte(byte) = self.pending.ahead(0) {
            if let NumberStep::Consume(part) = progress.part.step(byte) {
                self.with_bytes(seq![byte]).dropped(1).lemma_read_number_end(
                    progress.advanced(byte, part),
                );
            }
        }
    }
}

} // verus!
