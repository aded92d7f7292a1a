//! Laws: tracking the JSON path has no effect on parsing, it only affects the information which is
//! provided for errors.

use vstd::prelude::*;

use crate::error::{Outcome, Problem, ValueType};
use crate::model::{Doing, Operation, ReaderModel, TransferProgress};
use crate::number::NumberProgress;
use crate::position::Place;
use crate::scan::GapEnd;
use crate::settings::ReaderSettings;
use crate::token::StackValue;

verus! {

impl Place {
    pub open spec fn without_path(self) -> Place {
        Place { path: None, ..self }
    }
}

impl Problem {
    /// The same problem, without the JSON path.
    pub open spec fn without_path(self) -> Problem {
        match self {
            Problem::Syntax(kind, place) => Problem::Syntax(kind, place.without_path()),
            Problem::ValueType(expected, actual, place) => Problem::ValueType(
                expected,
                actual,
                place.without_path(),
            ),
            Problem::Structure(kind, place) => Problem::Structure(kind, place.without_path()),
            Problem::Depth(depth, place) => Problem::Depth(depth, place.without_path()),
            Problem::Number(number, place) => Problem::Number(number, place.without_path()),
            Problem::Io(error, place) => Problem::Io(error, place.without_path()),
        }
    }
}

impl<T> Outcome<T> {
    /// The same outcome, without the JSON path of an error.
    pub open spec fn without_path(self) -> Outcome<T> {
        match self {
            Outcome::Failed(problem) => Outcome::Failed(problem.without_path()),
            outcome => outcome,
        }
    }
}

impl ReaderModel {
    /// The same state of a reader which does not track the path.
    ///
    /// `keep` tells whether member names are read; if they are skipped, a reader which does not
    /// track the path has no need for their bytes.
    pub open spec fn without_path(self, keep: bool) -> ReaderModel {
        ReaderModel {
            scan: if !keep && self.doing is ReadingName {
                self.scan.with_value(None)
            } else {
                self.scan
            },
            path: None,
            settings: ReaderSettings { track_path: false, ..self.settings },
            ..self
        }
    }

    /// Whether a function has the same effect if the path is not tracked.
    pub open spec fn ignores_path<T>(
        stop: (ReaderModel, Outcome<T>),
        other: (ReaderModel, Outcome<T>),
        keep: bool,
    ) -> bool {
        &&& other.0 == stop.0.without_path(keep)
        &&& other.1 == stop.1.without_path()
    }

    pub proof fn lemma_after_name_ignores_path(self, keep: bool)
        requires
            self.doing is Idle,
        ensures
            ReaderModel::ignores_path(
                self.after_name(),
                self.without_path(keep).after_name(),
                keep,
            ),
    {
    }

    pub proof fn lemma_peek_token_ignores_path(self, byte: u8, keep: bool)
        requires
            self.doing is Idle,
        ensures
            ReaderModel::ignores_path(
                self.peek_token(byte),
                self.without_path(keep).peek_token(byte),
                keep,
            ),
    {
    }

    pub proof fn lemma_peek_after_comma_ignores_path(self, keep: bool)
        requires
            self.doing is Idle,
        ensures
            ReaderModel::ignores_path(
                self.peek_after_comma(),
                self.without_path(keep).peek_after_comma(),
                keep,
            ),
    {
        let (scan, end) = self.scan.skip_gap(self.settings.allow_comments);
        if let GapEnd::Byte(byte) = end {
            (ReaderModel { scan, ..self }).lemma_peek_token_ignores_path(byte, keep);
        }
    }

    pub proof fn lemma_peek_separated_ignores_path(self, keep: bool)
        requires
            self.doing is Idle,
        ensures
            ReaderModel::ignores_path(
                self.peek_separated(),
                self.without_path(keep).peek_separated(),
                keep,
            ),
    {
        if self.comma is Some {
            self.lemma_peek_after_comma_ignores_path(keep);
        } else {
            let (scan, end) = self.scan.skip_gap(self.settings.allow_comments);
            if let GapEnd::Byte(byte) = end {
                if byte != crate::ascii::COMMA {
                    (ReaderModel { scan, ..self }).lemma_peek_token_ignores_path(byte, keep);
                } else if self.can_have_comma() {
                    (ReaderModel {
                        scan: scan.consumed(1, 1),
                        comma: Some(scan.spot),
                        ..self
                    }).lemma_peek_after_comma_ignores_path(keep);
                }
            }
        }
    }

    pub proof fn lemma_peek_optional_ignores_path(self, keep: bool)
        requires
            self.doing is Idle,
        ensures
            ReaderModel::ignores_path(
                self.peek_optional(),
                self.without_path(keep).peek_optional(),
                keep,
            ),
    {
        if self.peeked is None {
            if self.expects_member_value() && !self.colon_read {
                self.lemma_after_name_ignores_path(keep);
                let (next, outcome) = self.after_name();
                if outcome is Ready {
                    next.lemma_peek_separated_ignores_path(keep);
                }
            } else {
                self.lemma_peek_separated_ignores_path(keep);
            }
        }
    }

    pub proof fn lemma_peek_internal_ignores_path(self, keep: bool)
        requires
            self.can_peek(),
        ensures
            ReaderModel::ignores_path(
                self.peek_internal(),
                self.without_path(keep).peek_internal(),
                keep,
            ),
    {
        self.lemma_peek_optional();
        self.lemma_peek_optional_ignores_path(keep);
    }

    pub proof fn lemma_peek_value_ignores_path(self, keep: bool)
        requires
            self.can_peek(),
        ensures
            ReaderModel::ignores_path(
                self.peek_value(),
                self.without_path(keep).peek_value(),
                keep,
            ),
    {
        self.lemma_peek_internal();
        self.lemma_peek_internal_ignores_path(keep);
    }

    pub proof fn lemma_start_value_ignores_path(
        self,
        expected: ValueType,
        check_depth: bool,
        keep: bool,
    )
        requires
            self.can_peek(),
        ensures
            ReaderModel::ignores_path(
                self.start_value(expected, check_depth),
                self.without_path(keep).start_value(expected, check_depth),
                keep,
            ),
    {
        self.lemma_peek_internal();
        self.lemma_peek_internal_ignores_path(keep);
    }

    pub proof fn lemma_begin_container_ignores_path(self, container: StackValue, keep: bool)
        requires
            self.can_peek(),
            !self.expects_member_name,
        ensures
            ReaderModel::ignores_path(
                self.begin_container(container),
                self.without_path(keep).begin_container(container),
                keep,
            ),
    {
        let value_type = match container {
            StackValue::Array => ValueType::Array,
            StackValue::Object => ValueType::Object,
        };
        self.lemma_start_value(value_type, true);
        self.lemma_start_value_ignores_path(value_type, true, keep);
    }

    pub proof fn lemma_end_container_ignores_path(self, container: StackValue, keep: bool)
        requires
            self.can_peek(),
        ensures
            ReaderModel::ignores_path(
                self.end_container(container),
                self.without_path(keep).end_container(container),
                keep,
            ),
    {
        self.lemma_peek_internal();
        self.lemma_peek_internal_ignores_path(keep);
    }

    pub proof fn lemma_check_next_ignores_path(self, keep: bool)
        requires
            self.can_peek(),
        ensures
            ReaderModel::ignores_path(
                self.check_next(),
                self.without_path(keep).check_next(),
                keep,
            ),
    {
        self.lemma_peek_internal_ignores_path(keep);
        self.lemma_peek_optional_ignores_path(keep);
    }

    pub proof fn lemma_read_bool_ignores_path(self, keep: bool)
        requires
            self.can_peek(),
            !self.expects_member_name,
        ensures
            ReaderModel::ignores_path(
                self.read_bool(),
                self.without_path(keep).read_bool(),
                keep,
            ),
    {
        self.lemma_start_value(ValueType::Boolean, false);
        self.lemma_start_value_ignores_path(ValueType::Boolean, false, keep);
    }

    pub proof fn lemma_read_null_ignores_path(self, keep: bool)
        requires
            self.can_peek(),
            !self.expects_member_name,
        ensures
            ReaderModel::ignores_path(
                self.read_null(),
                self.without_path(keep).read_null(),
                keep,
            ),
    {
        self.lemma_start_value(ValueType::Null, false);
        self.lemma_start_value_ignores_path(ValueType::Null, false, keep);
    }

    pub proof fn lemma_before_name_ignores_path(self, keep: bool)
        requires
            self.can_peek(),
            self.expects_member_name,
        ensures
            ReaderModel::ignores_path(
                self.before_name(),
                self.without_path(keep).before_name(),
                keep,
            ),
    {
        self.lemma_check_next();
        self.lemma_check_next_ignores_path(keep);
    }

    pub proof fn lemma_continue_name_ignores_path(self, keep: bool)
        requires
            self.doing is ReadingName,
        ensures
            ({
                let stop = self.continue_name();
                let other = self.without_path(keep).continue_name();
                &&& other.0 == stop.0.without_path(keep)
                &&& keep ==> other.1 == stop.1.without_path()
                &&& other.1 is Ready <==> stop.1 is Ready
                &&& !(stop.1 is Ready) ==> other.1 == stop.1.without_path()
            }),
    {
        self.scan.lemma_string_bytes();
        let none = self.scan.with_value(None);
        none.lemma_string_bytes();
        assert(none.with_value(None) == none);
    }

    pub proof fn lemma_read_name_ignores_path(self, keep: bool)
        requires
            self.can_resume(),
            self.path is Some ==> self.doing is Idle || self.scan.value is Some,
            self.doing is Idle && self.expects_member_name || self.doing is ReadingName,
        ensures
            ({
                let stop = self.read_name(keep || self.path is Some);
                let other = self.without_path(keep).read_name(keep);
                &&& other.0 == stop.0.without_path(keep)
                &&& keep ==> other.1 == stop.1.without_path()
                &&& other.1 is Ready <==> stop.1 is Ready
                &&& !(stop.1 is Ready) ==> other.1 == stop.1.without_path()
            }),
    {
        if self.doing is ReadingName {
            self.lemma_continue_name_ignores_path(keep);
        } else {
            self.lemma_before_name();
            self.lemma_before_name_ignores_path(keep);
            let (next, outcome) = self.before_name();
            if outcome is Ready {
                let reading = next.reading(Doing::ReadingName, keep || self.path is Some);
                reading.lemma_continue_name_ignores_path(keep);
                assert(next.without_path(keep).reading(Doing::ReadingName, keep)
                    == reading.without_path(keep));
            }
        }
    }

    pub proof fn lemma_pass_name_ignores_path(self)
        requires
            self.can_resume(),
            self.doing is Idle && self.expects_member_name || self.doing is ReadingName,
        ensures
            ReaderModel::ignores_path(
                self.pass_name(),
                self.without_path(false).pass_name(),
                false,
            ),
    {
        self.lemma_read_name_ignores_path(false);
    }

    pub proof fn lemma_continue_string_ignores_path(self, keep: bool)
        requires
            self.doing is ReadingString,
        ensures
            ReaderModel::ignores_path(
                self.continue_string(),
                self.without_path(keep).continue_string(),
                keep,
            ),
    {
    }

    pub proof fn lemma_read_string_ignores_path(self, kept: bool, keep: bool)
        requires
            self.can_resume(),
            self.doing is Idle && !self.expects_member_name || self.doing is ReadingString,
        ensures
            ReaderModel::ignores_path(
                self.read_string(kept),
                self.without_path(keep).read_string(kept),
                keep,
            ),
    {
        if self.doing is ReadingString {
            self.lemma_continue_string_ignores_path(keep);
        } else {
            self.lemma_start_value(ValueType::String, false);
            self.lemma_start_value_ignores_path(ValueType::String, false, keep);
            let (next, outcome) = self.start_value(ValueType::String, false);
            if outcome is Ready {
                let reading = next.reading(Doing::ReadingString, kept);
                reading.lemma_continue_string_ignores_path(keep);
                assert(next.without_path(keep).reading(Doing::ReadingString, kept)
                    == reading.without_path(keep));
            }
        }
    }

    pub proof fn lemma_continue_number_ignores_path(self, progress: NumberProgress, keep: bool)
        requires
            self.doing is ReadingNumber,
        ensures
            ReaderModel::ignores_path(
                self.continue_number(progress),
                self.without_path(keep).continue_number(progress),
                keep,
            ),
    {
    }

    pub proof fn lemma_read_number_ignores_path(self, kept: bool, keep: bool)
        requires
            self.can_resume(),
            self.doing is Idle && !self.expects_member_name || self.doing is ReadingNumber,
        ensures
            ReaderModel::ignores_path(
                self.read_number(kept),
                self.without_path(keep).read_number(kept),
                keep,
            ),
    {
        match self.doing {
            Doing::ReadingNumber(progress) => {
                self.lemma_continue_number_ignores_path(progress, keep);
            },
            _ => {
                self.lemma_start_value(ValueType::Number, false);
                self.lemma_start_value_ignores_path(ValueType::Number, false, keep);
                let (next, outcome) = self.start_value(ValueType::Number, false);
                if outcome is Ready {
                    let progress = NumberProgress::start();
                    let reading = next.reading(Doing::ReadingNumber(progress), kept);
                    reading.lemma_continue_number_ignores_path(progress, keep);
                    assert(next.without_path(keep).reading(Doing::ReadingNumber(progress), kept)
                        == reading.without_path(keep));
                }
            },
        }
    }

    pub proof fn lemma_skip_typed_ignores_path(self, value_type: ValueType, keep: bool)
        requires
            self.can_peek(),
            !self.expects_member_name,
        ensures
            ReaderModel::ignores_path(
                self.skip_typed(value_type),
                self.without_path(keep).skip_typed(value_type),
                keep,
            ),
    {
        match value_type {
            ValueType::Array => self.lemma_begin_container_ignores_path(StackValue::Array, keep),
            ValueType::Object => self.lemma_begin_container_ignores_path(StackValue::Object, keep),
            ValueType::String => self.lemma_read_string_ignores_path(false, keep),
            ValueType::Number => self.lemma_read_number_ignores_path(false, keep),
            ValueType::Boolean => self.lemma_read_bool_ignores_path(keep),
            ValueType::Null => self.lemma_read_null_ignores_path(keep),
        }
    }

    pub proof fn lemma_skip_item_ignores_path(self, keep: bool)
        requires
            self.can_resume(),
            !self.expects_member_name,
            self.doing is Idle || self.doing is ReadingString || self.doing is ReadingNumber,
        ensures
            ReaderModel::ignores_path(
                self.skip_item(),
                self.without_path(keep).skip_item(),
                keep,
            ),
    {
        if self.doing is ReadingString {
            self.lemma_read_string_ignores_path(false, keep);
        } else if self.doing is ReadingNumber {
            self.lemma_read_number_ignores_path(false, keep);
        } else {
            self.lemma_peek_value();
            self.lemma_peek_value_ignores_path(keep);
            let (next, outcome) = self.peek_value();
            if let Outcome::Ready(value_type) = outcome {
                next.lemma_skip_typed_ignores_path(value_type, keep);
            }
        }
    }

    pub proof fn lemma_skip_element_ignores_path(self)
        requires
            self.can_peek(),
            self.stack.len() > 0,
        ensures
            ReaderModel::ignores_path(
                self.skip_element(),
                self.without_path(false).skip_element(),
                false,
            ),
    {
        self.lemma_check_next();
        self.lemma_check_next_ignores_path(false);
        let (next, outcome) = self.check_next();
        if let Outcome::Ready(found) = outcome {
            if !found {
                next.lemma_end_container_ignores_path(next.stack.last(), false);
            } else if next.expects_member_name {
                next.lemma_pass_name_ignores_path();
            } else {
                next.lemma_skip_item_ignores_path(false);
            }
        }
    }

    pub proof fn lemma_skip_step_ignores_path(self, base: nat)
        requires
            self.can_skip(base),
        ensures
            ReaderModel::ignores_path(
                self.skip_step(base),
                self.without_path(false).skip_step(base),
                false,
            ),
    {
        if self.doing is ReadingName {
            self.lemma_pass_name_ignores_path();
        } else if self.doing is Idle && self.stack.len() > base && !self.expects_member_value() {
            self.lemma_skip_element_ignores_path();
        } else {
            self.lemma_skip_item_ignores_path(false);
        }
    }

    pub proof fn lemma_skip_rest_ignores_path(self, base: nat)
        requires
            self.can_skip(base),
        ensures
            ReaderModel::ignores_path(
                self.skip_rest(base),
                self.without_path(false).skip_rest(base),
                false,
            ),
        decreases self.remaining(),
    {
        self.lemma_skip_step(base);
        self.lemma_skip_step_ignores_path(base);
        let (next, outcome) = self.skip_step(base);
        if outcome is Ready && next.stack.len() > base {
            next.lemma_skip_rest_ignores_path(base);
        }
    }

    pub proof fn lemma_pass_value_ignores_path(self)
        requires
            self.can_pass_value(),
        ensures
            ReaderModel::ignores_path(
                self.pass_value(),
                self.without_path(false).pass_value(),
                false,
            ),
    {
        let base = self.skip_depth();
        let skipping = ReaderModel { skip_base: Some(base), ..self };
        skipping.lemma_skip_rest_ignores_path(base);
        assert(self.pass_value() == skipping.skip_rest(base));
        assert(self.without_path(false).pass_value() == skipping.without_path(false).skip_rest(
            base,
        ));
    }

    pub proof fn lemma_top_level_step_ignores_path(self)
        requires
            self.can_pass_to_top_level(),
        ensures
            ReaderModel::ignores_path(
                self.top_level_step(),
                self.without_path(false).top_level_step(),
                false,
            ),
    {
        if self.doing is ReadingName && self.skip_base is None {
            self.lemma_pass_name_ignores_path();
        } else if self.skip_base is Some || self.expects_member_value() {
            self.lemma_pass_value_ignores_path();
        } else if self.stack.len() > 0 {
            self.lemma_check_next();
            self.lemma_check_next_ignores_path(false);
            let (next, outcome) = self.check_next();
            if let Outcome::Ready(found) = outcome {
                if !found {
                    next.lemma_end_container_ignores_path(next.stack.last(), false);
                } else if next.expects_member_name {
                    next.lemma_pass_name_ignores_path();
                } else {
                    next.lemma_pass_value_ignores_path();
                }
            }
        }
    }

    pub proof fn lemma_pass_to_top_level_ignores_path(self)
        requires
            self.can_pass_to_top_level(),
        ensures
            ReaderModel::ignores_path(
                self.pass_to_top_level(),
                self.without_path(false).pass_to_top_level(),
                false,
            ),
        decreases self.remaining(),
    {
        self.lemma_top_level_step();
        self.lemma_top_level_step_ignores_path();
        let (next, outcome) = self.top_level_step();
        if outcome == Outcome::Ready(false) {
            next.lemma_pass_to_top_level_ignores_path();
        }
    }

    pub proof fn lemma_transfer_value_ignores_path(self)
        requires
            self.can_peek(),
            !self.expects_member_name,
        ensures
            ReaderModel::ignores_path(
                self.transfer_value(),
                self.without_path(true).transfer_value(),
                true,
            ),
    {
        self.lemma_peek_value();
        self.lemma_peek_value_ignores_path(true);
        let (next, outcome) = self.peek_value();
        if let Outcome::Ready(value_type) = outcome {
            match value_type {
                ValueType::Array => next.lemma_begin_container_ignores_path(
                    StackValue::Array,
                    true,
                ),
                ValueType::Object => next.lemma_begin_container_ignores_path(
                    StackValue::Object,
                    true,
                ),
                ValueType::String => next.lemma_start_value_ignores_path(
                    ValueType::String,
                    false,
                    true,
                ),
                ValueType::Number => next.lemma_read_number_ignores_path(true, true),
                ValueType::Boolean => next.lemma_read_bool_ignores_path(true),
                ValueType::Null => next.lemma_read_null_ignores_path(true),
            }
        }
    }

    pub proof fn lemma_transfer_token_ignores_path(self, transfer: TransferProgress)
        requires
            self.can_transfer(transfer),
            self.doing is Idle,
        ensures
            ReaderModel::ignores_path(
                self.transfer_token(transfer),
                self.without_path(true).transfer_token(transfer),
                true,
            ),
    {
        if transfer.started && self.stack.len() <= transfer.base {
        } else if self.stack.len() > transfer.base && !self.expects_member_value() {
            self.lemma_check_next();
            self.lemma_check_next_ignores_path(true);
            let (next, outcome) = self.check_next();
            if let Outcome::Ready(found) = outcome {
                if !found {
                    next.lemma_end_container_ignores_path(next.stack.last(), true);
                } else if next.expects_member_name {
                    next.lemma_read_name_ignores_path(true);
                } else {
                    next.lemma_transfer_value_ignores_path();
                }
            }
        } else {
            self.lemma_transfer_value_ignores_path();
        }
    }

    proof fn lemma_transfer_piece_ignores_path(self)
        requires
            self.doing is TransferringString,
        ensures
            ReaderModel::ignores_path(
                self.transfer_piece(),
                self.without_path(true).transfer_piece(),
                true,
            ),
    {
    }

    #[verifier::rlimit(40)]
    pub proof fn lemma_transfer_step_ignores_path(self, transfer: TransferProgress)
        requires
            self.can_transfer(transfer),
        ensures
            ReaderModel::ignores_path(
                self.transfer_step(transfer),
                self.without_path(true).transfer_step(transfer),
                true,
            ),
    {
        match self.doing {
            Doing::TransferringString => self.lemma_transfer_piece_ignores_path(),
            Doing::StringTransferred => {
                let idle = ReaderModel { doing: Doing::Idle, ..self };
                idle.lemma_value_ended();
                idle.value_ended().lemma_transfer_token_ignores_path(transfer);
                assert(idle.without_path(true).value_ended() == idle.value_ended().without_path(
                    true,
                ));
            },
            Doing::ReadingName => self.lemma_read_name_ignores_path(true),
            Doing::ReadingNumber(_) => self.lemma_read_number_ignores_path(true, true),
            _ => self.lemma_transfer_token_ignores_path(transfer),
        }
    }

    /// Peeking has the same effect and result whether or not the path is tracked, up to the
    /// path itself.
    pub proof fn law_peek_ignores_path(self)
        requires
            self.valid(),
            self.misuse(Operation::Peek) is None,
        ensures
            ReaderModel::ignores_path(
                self.peek(),
                self.without_path(true).peek(),
                true,
            ),
    {
        self.lemma_ready(Operation::Peek);
        let m = self.picked_up();
        assert(self.without_path(true).picked_up() == m.without_path(true));
        m.lemma_peek_value_ignores_path(true);
    }

    /// Starting an array has the same effect and result whether or not the path is tracked, up to
    /// the path itself.
    pub proof fn law_begin_array_ignores_path(self)
        requires
            self.valid(),
            self.misuse(Operation::BeginArray) is None,
        ensures
            ReaderModel::ignores_path(
                self.begin_array(),
                self.without_path(true).begin_array(),
                true,
            ),
    {
        self.lemma_ready(Operation::BeginArray);
        let m = self.picked_up();
        assert(self.without_path(true).picked_up() == m.without_path(true));
        m.lemma_begin_container_ignores_path(StackValue::Array, true);
    }

    /// Ending an array has the same effect and result whether or not the path is tracked, up to the
    /// path itself.
    pub proof fn law_end_array_ignores_path(self)
        requires
            self.valid(),
            self.misuse(Operation::EndArray) is None,
        ensures
            ReaderModel::ignores_path(
                self.end_array(),
                self.without_path(true).end_array(),
                true,
            ),
    {
        self.lemma_ready(Operation::EndArray);
        let m = self.picked_up();
        assert(self.without_path(true).picked_up() == m.without_path(true));
        m.lemma_end_container_ignores_path(StackValue::Array, true);
    }

    /// Starting an object has the same effect and result whether or not the path is tracked, up to
    /// the path itself.
    pub proof fn law_begin_object_ignores_path(self)
        requires
            self.valid(),
            self.misuse(Operation::BeginObject) is None,
        ensures
            ReaderModel::ignores_path(
                self.begin_object(),
                self.without_path(true).begin_object(),
                true,
            ),
    {
        self.lemma_ready(Operation::BeginObject);
        let m = self.picked_up();
        assert(self.without_path(true).picked_up() == m.without_path(true));
        m.lemma_begin_container_ignores_path(StackValue::Object, true);
    }

    /// Ending an object has the same effect and result whether or not the path is tracked, up to
    /// the path itself.
    pub proof fn law_end_object_ignores_path(self)
        requires
            self.valid(),
            self.misuse(Operation::EndObject) is None,
        ensures
            ReaderModel::ignores_path(
                self.end_object(),
                self.without_path(true).end_object(),
                true,
            ),
    {
        self.lemma_ready(Operation::EndObject);
        let m = self.picked_up();
        assert(self.without_path(true).picked_up() == m.without_path(true));
        m.lemma_end_container_ignores_path(StackValue::Object, true);
    }

    /// Checking for a next element has the same effect and result whether or not the path is
    /// tracked, up to the path itself.
    pub proof fn law_has_next_ignores_path(self)
        requires
            self.valid(),
            self.misuse(Operation::HasNext) is None,
        ensures
            ReaderModel::ignores_path(
                self.has_next(),
                self.without_path(true).has_next(),
                true,
            ),
    {
        reveal(ReaderModel::has_next);
        self.lemma_ready(Operation::HasNext);
        let m = self.picked_up();
        assert(self.without_path(true).picked_up() == m.without_path(true));
        m.lemma_check_next_ignores_path(true);
    }

    /// Reading a member name has the same effect and result whether or not the path is tracked, up
    /// to the path itself.
    pub proof fn law_next_name_ignores_path(self)
        requires
            self.valid(),
            self.misuse(Operation::NextName) is None,
        ensures
            ReaderModel::ignores_path(
                self.next_name(),
                self.without_path(true).next_name(),
                true,
            ),
    {
        reveal(ReaderModel::next_name);
        self.lemma_ready(Operation::NextName);
        let m = self.picked_up();
        assert(self.without_path(true).picked_up() == m.without_path(true));
        m.lemma_read_name_ignores_path(true);
    }

    /// Reading a string value has the same effect and result whether or not the path is tracked, up
    /// to the path itself.
    pub proof fn law_next_string_ignores_path(self)
        requires
            self.valid(),
            self.misuse(Operation::NextString) is None,
        ensures
            ReaderModel::ignores_path(
                self.next_string(),
                self.without_path(true).next_string(),
                true,
            ),
    {
        self.lemma_ready(Operation::NextString);
        let m = self.picked_up();
        assert(self.without_path(true).picked_up() == m.without_path(true));
        m.lemma_read_string_ignores_path(true, true);
    }

    /// Starting to read a string value in a streaming way has the same effect and result whether or
    /// not the path is tracked, up to the path itself.
    pub proof fn law_next_string_reader_ignores_path(self)
        requires
            self.valid(),
            self.misuse(Operation::NextStringReader) is None,
        ensures
            ReaderModel::ignores_path(
                self.next_string_reader(),
                self.without_path(true).next_string_reader(),
                true,
            ),
    {
        self.lemma_ready(Operation::NextStringReader);
        let m = self.picked_up();
        assert(self.without_path(true).picked_up() == m.without_path(true));
        m.lemma_start_value_ignores_path(ValueType::String, false, true);
    }

    /// Reading a number has the same effect and result whether or not the path is tracked, up to
    /// the path itself.
    pub proof fn law_next_number_ignores_path(self)
        requires
            self.valid(),
            self.misuse(Operation::NextNumber) is None,
        ensures
            ReaderModel::ignores_path(
                self.next_number(),
                self.without_path(true).next_number(),
                true,
            ),
    {
        self.lemma_ready(Operation::NextNumber);
        let m = self.picked_up();
        assert(self.without_path(true).picked_up() == m.without_path(true));
        m.lemma_read_number_ignores_path(true, true);
    }

    /// Reading a boolean has the same effect and result whether or not the path is tracked, up to
    /// the path itself.
    pub proof fn law_next_bool_ignores_path(self)
        requires
            self.valid(),
            self.misuse(Operation::NextBool) is None,
        ensures
            ReaderModel::ignores_path(
                self.next_bool(),
                self.without_path(true).next_bool(),
                true,
            ),
    {
        self.lemma_ready(Operation::NextBool);
        let m = self.picked_up();
        assert(self.without_path(true).picked_up() == m.without_path(true));
        m.lemma_read_bool_ignores_path(true);
    }

    /// Reading a null value has the same effect and result whether or not the path is tracked, up
    /// to the path itself.
    pub proof fn law_next_null_ignores_path(self)
        requires
            self.valid(),
            self.misuse(Operation::NextNull) is None,
        ensures
            ReaderModel::ignores_path(
                self.next_null(),
                self.without_path(true).next_null(),
                true,
            ),
    {
        self.lemma_ready(Operation::NextNull);
        let m = self.picked_up();
        assert(self.without_path(true).picked_up() == m.without_path(true));
        m.lemma_read_null_ignores_path(true);
    }

    /// Skipping a member name has the same effect and result whether or not the path is tracked, up
    /// to the path itself.
    pub proof fn law_skip_name_ignores_path(self)
        requires
            self.valid(),
            self.misuse(Operation::SkipName) is None,
        ensures
            ReaderModel::ignores_path(
                self.skip_name(),
                self.without_path(false).skip_name(),
                false,
            ),
    {
        self.lemma_ready(Operation::SkipName);
        let m = self.picked_up();
        assert(self.without_path(false).picked_up() == m.without_path(false));
        m.lemma_pass_name_ignores_path();
    }

    /// Skipping a value has the same effect and result whether or not the path is tracked, up to
    /// the path itself.
    pub proof fn law_skip_value_ignores_path(self)
        requires
            self.valid(),
            self.misuse(Operation::SkipValue) is None,
        ensures
            ReaderModel::ignores_path(
                self.skip_value(),
                self.without_path(false).skip_value(),
                false,
            ),
    {
        self.lemma_ready(Operation::SkipValue);
        let m = self.picked_up();
        assert(self.without_path(false).picked_up() == m.without_path(false));
        m.lemma_pass_value_ignores_path();
    }

    /// Skipping to the top-level has the same effect and result whether or not the path is tracked,
    /// up to the path itself.
    pub proof fn law_skip_to_top_level_ignores_path(self)
        requires
            self.valid(),
            self.misuse(Operation::SkipToTopLevel) is None,
        ensures
            ReaderModel::ignores_path(
                self.skip_to_top_level(),
                self.without_path(false).skip_to_top_level(),
                false,
            ),
    {
        self.lemma_ready(Operation::SkipToTopLevel);
        let m = self.picked_up();
        assert(self.without_path(false).picked_up() == m.without_path(false));
        m.lemma_pass_to_top_level_ignores_path();
    }

    /// Consuming trailing whitespace has the same effect and result whether or not the path is
    /// tracked, up to the path itself.
    pub proof fn law_consume_trailing_whitespace_ignores_path(self)
        requires
            self.valid(),
            self.misuse(Operation::ConsumeTrailingWhitespace) is None,
        ensures
            ReaderModel::ignores_path(
                self.consume_trailing_whitespace(),
                self.without_path(true).consume_trailing_whitespace(),
                true,
            ),
    {
        self.lemma_ready(Operation::ConsumeTrailingWhitespace);
        let m = self.picked_up();
        assert(self.without_path(true).picked_up() == m.without_path(true));
    }

    /// Transferring a value has the same effect and result whether or not the path is tracked, up
    /// to the path itself.
    pub proof fn law_transfer_next_ignores_path(self)
        requires
            self.valid(),
            self.misuse(Operation::TransferTo) is None,
        ensures
            ReaderModel::ignores_path(
                self.transfer_next(),
                self.without_path(true).transfer_next(),
                true,
            ),
    {
        self.lemma_ready(Operation::TransferTo);
        let m = self.picked_up();
        assert(self.without_path(true).picked_up() == m.without_path(true));
        let transfer = match m.transfer {
            Some(transfer) => transfer,
            None => TransferProgress { base: m.stack.len(), started: false },
        };
        let transferring = ReaderModel { transfer: Some(transfer), ..m };
        transferring.lemma_transfer_step_ignores_path(transfer);
        assert(m.transfer_any() == transferring.transfer_step(transfer)) by {
            reveal(ReaderModel::transfer_any);
        }
        assert(m.without_path(true).transfer_any() == transferring.without_path(
            true,
        ).transfer_step(transfer)) by {
            reveal(ReaderModel::transfer_any);
        }
    }
}

} // verus!
