//! Laws: skipping ignores the restriction of numbers.

use vstd::prelude::*;

use crate::error::{Outcome, ValueType};
use crate::model::{Doing, Operation, ReaderModel};
use crate::number::NumberProgress;
use crate::scan::GapEnd;
use crate::settings::ReaderSettings;
use crate::token::StackValue;

verus! {

impl ReaderModel {
    /// The same state of a reader which does not restrict numbers.
    pub open spec fn unrestricted(self) -> ReaderModel {
        ReaderModel {
            settings: ReaderSettings { restrict_number_values: false, ..self.settings },
            ..self
        }
    }

    /// Whether a function has the same effect for a reader which does not restrict numbers.
    pub open spec fn is_unrestricted<T>(
        stop: (ReaderModel, Outcome<T>),
        other: (ReaderModel, Outcome<T>),
    ) -> bool {
        other == (stop.0.unrestricted(), stop.1)
    }

    proof fn lemma_after_name_unrestricted(self)
        ensures
            ReaderModel::is_unrestricted(self.after_name(), self.unrestricted().after_name()),
    {
    }

    proof fn lemma_peek_token_unrestricted(self, byte: u8)
        ensures
            ReaderModel::is_unrestricted(
                self.peek_token(byte),
                self.unrestricted().peek_token(byte),
            ),
    {
    }

    proof fn lemma_peek_after_comma_unrestricted(self)
        ensures
            ReaderModel::is_unrestricted(
                self.peek_after_comma(),
                self.unrestricted().peek_after_comma(),
            ),
    {
        let (scan, end) = self.scan.skip_gap(self.settings.allow_comments);
        if let GapEnd::Byte(byte) = end {
            let next = ReaderModel { scan, ..self };
            next.lemma_peek_token_unrestricted(byte);
        }
    }

    proof fn lemma_peek_separated_unrestricted(self)
        ensures
            ReaderModel::is_unrestricted(
                self.peek_separated(),
                self.unrestricted().peek_separated(),
            ),
    {
        if self.comma is Some {
            self.lemma_peek_after_comma_unrestricted();
        } else {
            let (scan, end) = self.scan.skip_gap(self.settings.allow_comments);
            if let GapEnd::Byte(byte) = end {
                if byte != crate::ascii::COMMA {
                    let next = ReaderModel { scan, ..self };
                    next.lemma_peek_token_unrestricted(byte);
                } else if self.can_have_comma() {
                    let behind = ReaderModel {
                        scan: scan.consumed(1, 1),
                        comma: Some(scan.spot),
                        ..self
                    };
                    behind.lemma_peek_after_comma_unrestricted();
                }
            }
        }
    }

    proof fn lemma_peek_optional_unrestricted(self)
        ensures
            ReaderModel::is_unrestricted(self.peek_optional(), self.unrestricted().peek_optional()),
    {
        if self.peeked is None {
            if self.expects_member_value() && !self.colon_read {
                self.lemma_after_name_unrestricted();
                let (next, outcome) = self.after_name();
                if outcome is Ready {
                    next.lemma_peek_separated_unrestricted();
                }
            } else {
                self.lemma_peek_separated_unrestricted();
            }
        }
    }

    proof fn lemma_peek_internal_unrestricted(self)
        ensures
            ReaderModel::is_unrestricted(self.peek_internal(), self.unrestricted().peek_internal()),
    {
        self.lemma_peek_optional_unrestricted();
    }

    proof fn lemma_check_next_unrestricted(self)
        ensures
            ReaderModel::is_unrestricted(self.check_next(), self.unrestricted().check_next()),
    {
        self.lemma_peek_optional_unrestricted();
        self.lemma_peek_internal_unrestricted();
    }

    proof fn lemma_start_value_unrestricted(self, expected: ValueType, check_depth: bool)
        ensures
            ReaderModel::is_unrestricted(
                self.start_value(expected, check_depth),
                self.unrestricted().start_value(expected, check_depth),
            ),
    {
        self.lemma_peek_internal_unrestricted();
    }

    proof fn lemma_begin_container_unrestricted(self, container: StackValue)
        ensures
            ReaderModel::is_unrestricted(
                self.begin_container(container),
                self.unrestricted().begin_container(container),
            ),
    {
        let value_type = match container {
            StackValue::Array => ValueType::Array,
            StackValue::Object => ValueType::Object,
        };
        self.lemma_start_value_unrestricted(value_type, true);
    }

    proof fn lemma_end_container_unrestricted(self, container: StackValue)
        ensures
            ReaderModel::is_unrestricted(
                self.end_container(container),
                self.unrestricted().end_container(container),
            ),
    {
        self.lemma_peek_internal_unrestricted();
    }

    proof fn lemma_pass_name_unrestricted(self)
        requires
            self.doing is Idle,
        ensures
            ReaderModel::is_unrestricted(self.pass_name(), self.unrestricted().pass_name()),
    {
        self.lemma_check_next_unrestricted();
        let (next, outcome) = self.before_name();
        assert(self.unrestricted().before_name() == (next.unrestricted(), outcome));
        if outcome is Ready {
            let reading = next.reading(Doing::ReadingName, self.path is Some);
            assert(reading.unrestricted() == next.unrestricted().reading(
                Doing::ReadingName,
                self.path is Some,
            ));
            assert(reading.unrestricted().continue_name() == (
                reading.continue_name().0.unrestricted(),
                reading.continue_name().1,
            ));
        }
    }

    proof fn lemma_read_string_unrestricted(self, keep: bool)
        requires
            self.doing is Idle,
        ensures
            ReaderModel::is_unrestricted(
                self.read_string(keep),
                self.unrestricted().read_string(keep),
            ),
    {
        self.lemma_start_value_unrestricted(ValueType::String, false);
        let (next, outcome) = self.start_value(ValueType::String, false);
        if outcome is Ready {
            let reading = next.reading(Doing::ReadingString, keep);
            assert(reading.unrestricted() == next.unrestricted().reading(
                Doing::ReadingString,
                keep,
            ));
            assert(reading.unrestricted().continue_string() == (
                reading.continue_string().0.unrestricted(),
                reading.continue_string().1,
            ));
        }
    }

    /// Only numbers whose bytes are kept are restricted.
    proof fn lemma_read_number_unrestricted(self)
        requires
            self.doing is Idle,
        ensures
            ReaderModel::is_unrestricted(
                self.read_number(false),
                self.unrestricted().read_number(false),
            ),
    {
        self.lemma_start_value_unrestricted(ValueType::Number, false);
        let (next, outcome) = self.start_value(ValueType::Number, false);
        if outcome is Ready {
            let progress = NumberProgress::start();
            let doing = Doing::ReadingNumber(progress);
            let reading = next.reading(doing, false);
            assert(reading.unrestricted() == next.unrestricted().reading(doing, false));
            reading.scan.lemma_number_value(progress);
            assert(reading.scan.with_value(None) == reading.scan);
            let (scan, advanced, end) = reading.scan.read_number(progress);
            assert(scan.value is None);
            let read = ReaderModel { scan, doing: Doing::ReadingNumber(advanced), ..reading };
            assert(read.unrestricted().number_read(advanced) == (
                read.number_read(advanced).0.unrestricted(),
                read.number_read(advanced).1,
            ));
        }
    }

    proof fn lemma_skip_typed_unrestricted(self, value_type: ValueType)
        requires
            self.doing is Idle,
        ensures
            ReaderModel::is_unrestricted(
                self.skip_typed(value_type),
                self.unrestricted().skip_typed(value_type),
            ),
    {
        match value_type {
            ValueType::Array => self.lemma_begin_container_unrestricted(StackValue::Array),
            ValueType::Object => self.lemma_begin_container_unrestricted(StackValue::Object),
            ValueType::String => self.lemma_read_string_unrestricted(false),
            ValueType::Number => self.lemma_read_number_unrestricted(),
            ValueType::Boolean => self.lemma_start_value_unrestricted(ValueType::Boolean, false),
            ValueType::Null => self.lemma_start_value_unrestricted(ValueType::Null, false),
        }
    }

    proof fn lemma_skip_item_unrestricted(self)
        requires
            self.can_peek(),
            !self.expects_member_name,
        ensures
            ReaderModel::is_unrestricted(self.skip_item(), self.unrestricted().skip_item()),
    {
        self.lemma_peek_internal_unrestricted();
        self.lemma_peek_value();
        let (next, outcome) = self.peek_value();
        assert(self.unrestricted().peek_value() == (next.unrestricted(), outcome));
        if let Outcome::Ready(value_type) = outcome {
            next.lemma_skip_typed_unrestricted(value_type);
        }
    }

    proof fn lemma_skip_step_unrestricted(self, base: nat)
        requires
            self.can_skip(base),
            self.doing is Idle,
        ensures
            ReaderModel::is_unrestricted(self.skip_step(base), self.unrestricted().skip_step(base)),
    {
        if self.stack.len() > base && !self.expects_member_value() {
            self.lemma_check_next();
            self.lemma_check_next_unrestricted();
            let (next, outcome) = self.check_next();
            if outcome == Outcome::Ready(true) {
                if next.expects_member_name {
                    next.lemma_pass_name_unrestricted();
                } else {
                    next.lemma_skip_item_unrestricted();
                }
            } else if outcome == Outcome::Ready(false) {
                next.lemma_end_container_unrestricted(next.stack.last());
            }
        } else {
            self.lemma_skip_item_unrestricted();
        }
    }

    proof fn lemma_skip_rest_unrestricted(self, base: nat)
        requires
            self.can_skip(base),
            self.doing is Idle,
        ensures
            ReaderModel::is_unrestricted(
                self.skip_rest(base),
                self.unrestricted().skip_rest(base),
            ),
        decreases self.remaining(),
    {
        self.lemma_skip_step(base);
        self.lemma_skip_step_unrestricted(base);
        let (next, outcome) = self.skip_step(base);
        if outcome is Ready && next.stack.len() > base {
            next.lemma_skip_rest_unrestricted(base);
        }
    }

    proof fn lemma_pass_value_unrestricted(self)
        requires
            self.can_peek(),
            self.skip_base is None,
            self.transfer is None,
            !self.expects_member_name,
        ensures
            ReaderModel::is_unrestricted(self.pass_value(), self.unrestricted().pass_value()),
    {
        self.skipping(self.stack.len()).lemma_skip_rest_unrestricted(self.stack.len());
    }

    proof fn lemma_pass_to_top_level_unrestricted(self)
        requires
            self.can_pass_to_top_level(),
            self.doing is Idle,
            self.skip_base is None,
        ensures
            ReaderModel::is_unrestricted(
                self.pass_to_top_level(),
                self.unrestricted().pass_to_top_level(),
            ),
        decreases self.remaining(),
    {
        self.lemma_top_level_step();
        if self.expects_member_value() {
            self.lemma_pass_value_unrestricted();
            self.lemma_pass_value();
        } else if self.stack.len() > 0 {
            self.lemma_check_next();
            self.lemma_check_next_unrestricted();
            let (next, outcome) = self.check_next();
            if outcome == Outcome::Ready(true) {
                if next.expects_member_name {
                    next.lemma_pass_name_unrestricted();
                    next.lemma_pass_name();
                } else {
                    next.lemma_pass_value_unrestricted();
                    next.lemma_pass_value();
                }
            } else if outcome == Outcome::Ready(false) {
                next.lemma_end_container_unrestricted(next.stack.last());
                next.lemma_end_container(next.stack.last());
            }
        }
        let (next, outcome) = self.top_level_step();
        assert(self.unrestricted().top_level_step() == (next.unrestricted(), outcome));
        if outcome == Outcome::Ready(false) {
            next.lemma_pass_to_top_level_unrestricted();
        }
    }

    /// Skipping values ignores the restriction of numbers: it has the same effect and result
    /// whether or not numbers are restricted.
    pub proof fn law_skipping_ignores_restriction(self)
        requires
            self.valid(),
            self.ongoing is None,
        ensures
            self.misuse(Operation::SkipValue) is None ==> ReaderModel::is_unrestricted(
                self.skip_value(),
                self.unrestricted().skip_value(),
            ),
            self.misuse(Operation::SkipToTopLevel) is None ==> ReaderModel::is_unrestricted(
                self.skip_to_top_level(),
                self.unrestricted().skip_to_top_level(),
            ),
    {
        assert(self.picked_up() == self);
        if self.misuse(Operation::SkipValue) is None {
            self.lemma_ready(Operation::SkipValue);
            self.lemma_pass_value_unrestricted();
        }
        if self.misuse(Operation::SkipToTopLevel) is None {
            self.lemma_ready(Operation::SkipToTopLevel);
            self.lemma_pass_to_top_level_unrestricted();
        }
    }

    /// Skipping a value leads to the same state as reading all of it does for a reader which does
    /// not restrict numbers, if such a reader can read it.
    pub proof fn law_skip_agrees_with_unrestricted_reading(self, fuel: nat)
        requires
            self.valid(),
            self.ongoing is None,
            self.misuse(Operation::SkipValue) is None,
            self.unrestricted().read_json(fuel).1 is Ready,
        ensures
            self.skip_value() == (
                (ReaderModel {
                    settings: self.settings,
                    ..self.unrestricted().read_json(fuel).0
                }),
                Outcome::Ready(()),
            ),
    {
        self.law_skipping_ignores_restriction();
        self.unrestricted().law_skip_agrees_with_reading(fuel);
        self.lemma_ready(Operation::SkipValue);
        self.lemma_skip_value();
    }
}

} // verus!
