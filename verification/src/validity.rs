//! The invariant of the JSON reader, and that all operations keep it.

use vstd::prelude::*;
use vstd::utf8::*;

use crate::error::{Outcome, ValueType};
use crate::model::{Doing, ReaderModel};
use crate::number::NumberProgress;
use crate::scan::ScanState;
use crate::token::{PeekedValue, StackValue};

verus! {

impl ReaderModel {
    /// The number of consumed bytes behind which the place was not moved yet.
    pub open spec fn unaccounted(self) -> nat {
        let token = match self.peeked {
            Some(peeked) => peeked.len(),
            None => 0,
        };
        let number = match self.doing {
            Doing::ReadingNumber(progress) => progress.len,
            _ => 0,
        };
        token + number
    }

    /// The pieces of the path correspond to the started arrays and objects.
    pub open spec fn has_matching_path(self) -> bool {
        &&& self.path is Some <==> self.settings.track_path
        &&& self.path matches Some(path) ==> {
            &&& path.len() == self.stack.len()
            &&& forall|i: int|
                0 <= i < path.len() ==> ((#[trigger] path[i]) is Item <==> self.stack[i] is Array)
        }
    }

    /// The token which was peeked at can occur where the reader stands.
    pub open spec fn has_fitting_token(self) -> bool {
        self.peeked matches Some(peeked) ==> {
            &&& peeked.is_for_name() <==> self.expects_member_name
            &&& peeked is ArrayEnd ==> self.is_in_array()
            &&& self.doing is Idle
            &&& !self.string_reader_active
        }
    }

    /// What holds of the reader at any time.
    pub open spec fn consistent(self) -> bool {
        &&& self.scan.sound()
        &&& self.scan.total() + self.unaccounted() <= u64::MAX
        &&& self.scan.has_valid_value()
        &&& self.expects_member_name ==> self.is_in_object()
        &&& self.settings.max_nesting_depth matches Some(max) ==> self.stack.len() <= max
        &&& self.has_matching_path()
        &&& self.has_fitting_token()
        &&& self.comma matches Some(spot) ==> spot.sound() && spot.byte_pos
            <= self.scan.spot.byte_pos
        &&& self.string_reader_active ==> self.doing is Idle && !self.expects_member_name
        &&& match self.doing {
            Doing::Idle => self.scan.value is None,
            Doing::ReadingName => {
                &&& self.expects_member_value()
                &&& self.path is Some ==> self.scan.value is Some
            },
            Doing::ReadingString => !self.expects_member_name,
            Doing::ReadingNumber(progress) => !self.expects_member_name && progress.sound(),
            Doing::TransferringString => !self.expects_member_name && self.scan.value is Some,
            Doing::StringTransferred => !self.expects_member_name && self.scan.value is None,
        }
        &&& self.skip_base matches Some(base) ==> base <= self.stack.len()
        &&& self.transfer matches Some(transfer) ==> transfer.base <= self.stack.len()
    }

    /// Whether only the token ahead was determined between two states.
    pub open spec fn same_but_token(self, other: ReaderModel) -> bool {
        other == ReaderModel {
            scan: other.scan,
            peeked: other.peeked,
            colon_read: other.colon_read,
            comma: other.comma,
            ..self
        }
    }

    /// What holds of every operation which stops.
    pub open spec fn leads_to<T>(self, stop: (ReaderModel, Outcome<T>)) -> bool {
        let (next, outcome) = stop;
        &&& next.consistent()
        &&& next.settings == self.settings
        &&& next.string_reader_active == self.string_reader_active
        &&& next.scan.pending.eof == self.scan.pending.eof
        &&& next.scan.pending.bytes.len() <= self.scan.pending.bytes.len()
        &&& next.scan.total() + next.unaccounted() <= self.scan.total() + self.unaccounted()
        &&& !(outcome is Failed) ==> next.scan.total() + next.unaccounted() == self.scan.total()
            + self.unaccounted()
        &&& outcome is NeedsInput ==> {
            &&& !self.scan.pending.eof
            &&& next.scan.pending.bytes.len() <= 11
            &&& next.ongoing == self.ongoing
        }
        &&& outcome is Failed ==> next == next.settled()
    }

    /// The bytes and tokens which can still be consumed.
    pub open spec fn remaining(self) -> nat {
        let token: nat = match self.peeked {
            Some(peeked) if !(peeked is NumberStart) => 1,
            _ => 0,
        };
        let unfinished: nat = if self.doing is Idle {
            0
        } else {
            1
        };
        self.scan.pending.bytes.len() + token + unfinished
    }

    pub proof fn lemma_start(settings: crate::settings::ReaderSettings)
        ensures
            ReaderModel::start(settings).consistent(),
    {
    }

    pub proof fn lemma_settled(self)
        requires
            self.consistent(),
        ensures
            self.settled().consistent(),
            self.settled().settled() == self.settled(),
    {
    }

    pub proof fn lemma_after_name(self)
        requires
            self.consistent(),
            self.peeked is None,
            self.doing is Idle,
        ensures
            self.leads_to(self.after_name()),
            !(self.after_name().1 is Failed) ==> self.same_but_token(self.after_name().0)
                && self.after_name().0.peeked is None && self.after_name().0.comma == self.comma,
            self.after_name().1 is Ready ==> {
                &&& self.after_name().0.colon_read
                &&& self.after_name().0.scan.pending.bytes.len() < self.scan.pending.bytes.len()
            },
    {
        self.scan.lemma_skip_gap(self.settings.allow_comments);
    }

    pub proof fn lemma_peek_token(self, byte: u8)
        requires
            self.consistent(),
            self.peeked is None,
            self.doing is Idle,
            !self.string_reader_active,
            self.scan.pending.ahead(0) == crate::lookahead::Ahead::Byte(byte),
            self.scan.gap is Outside,
        ensures
            self.leads_to(self.peek_token(byte)),
            self.is_peek(self.peek_token(byte)),
            self.peek_token(byte).1 matches Outcome::Ready(peeked) ==> peeked is Some,
    {
        self.scan.pending.lemma_token(byte, self.context());
    }

    /// What peeking at a token does.
    pub open spec fn is_peek(self, stop: (ReaderModel, Outcome<Option<PeekedValue>>)) -> bool {
        let (next, outcome) = stop;
        &&& !(outcome is Failed) ==> self.same_but_token(next)
        &&& outcome is NeedsInput ==> next.peeked is None
        &&& outcome matches Outcome::Ready(peeked) ==> {
            &&& next.peeked == peeked
            &&& !next.colon_read
            &&& next.comma is None
            &&& next.scan.gap is Outside
            &&& next.scan.value is None
            &&& peeked matches Some(peeked) ==> next.scan.pending.bytes.len() + peeked.len()
                <= self.scan.pending.bytes.len()
        }
    }

    pub proof fn lemma_peek_after_comma(self)
        requires
            self.consistent(),
            self.peeked is None,
            self.doing is Idle,
            !self.string_reader_active,
        ensures
            self.leads_to(self.peek_after_comma()),
            self.is_peek(self.peek_after_comma()),
            self.peek_after_comma().1 matches Outcome::Ready(peeked) ==> peeked is Some,
    {
        self.scan.lemma_skip_gap(self.settings.allow_comments);
        let (scan, end) = self.scan.skip_gap(self.settings.allow_comments);
        let next = ReaderModel { scan, ..self };
        if let crate::scan::GapEnd::Byte(byte) = end {
            next.lemma_peek_token(byte);
        }
    }

    pub proof fn lemma_peek_separated(self)
        requires
            self.consistent(),
            self.peeked is None,
            self.doing is Idle,
            !self.string_reader_active,
        ensures
            self.leads_to(self.peek_separated()),
            self.is_peek(self.peek_separated()),
    {
        if self.comma is Some {
            self.lemma_peek_after_comma();
        } else {
            self.scan.lemma_skip_gap(self.settings.allow_comments);
            let (scan, end) = self.scan.skip_gap(self.settings.allow_comments);
            let next = ReaderModel { scan, ..self };
            if let crate::scan::GapEnd::Byte(byte) = end {
                if byte != crate::ascii::COMMA {
                    next.lemma_peek_token(byte);
                } else if self.can_have_comma() {
                    ReaderModel {
                        scan: scan.consumed(1, 1),
                        comma: Some(scan.spot),
                        ..self
                    }.lemma_peek_after_comma();
                }
            }
        }
    }

    /// Whether peeking starts without leftovers of a previous token.
    pub open spec fn can_peek(self) -> bool {
        &&& self.consistent()
        &&& self.doing is Idle
        &&& !self.string_reader_active
        &&& self.peeked is Some ==> !self.colon_read && self.comma is None && self.scan.gap
            is Outside
    }

    pub proof fn lemma_peek_optional(self)
        requires
            self.can_peek(),
        ensures
            self.leads_to(self.peek_optional()),
            self.peeked is Some ==> self.peek_optional() == (self, Outcome::Ready(self.peeked)),
            self.peeked is None ==> self.is_peek(self.peek_optional()),
            !(self.peek_optional().1 is Failed) ==> self.same_but_token(self.peek_optional().0)
                && self.peek_optional().0.can_peek(),
    {
        if self.peeked is None {
            if self.expects_member_value() && !self.colon_read {
                self.lemma_after_name();
                let (next, outcome) = self.after_name();
                if outcome is Ready {
                    next.lemma_peek_separated();
                }
            } else {
                self.lemma_peek_separated();
            }
        }
    }

    pub proof fn lemma_peek_internal(self)
        requires
            self.can_peek(),
        ensures
            self.leads_to(self.peek_internal()),
            !(self.peek_internal().1 is Failed) ==> self.same_but_token(self.peek_internal().0)
                && self.peek_internal().0.can_peek(),
            self.peek_internal().1 matches Outcome::Ready(peeked) ==> {
                let next = self.peek_internal().0;
                &&& next.peeked == Some(peeked)
                &&& self.peeked is None ==> next.scan.pending.bytes.len() + peeked.len()
                    <= self.scan.pending.bytes.len()
                &&& self.peeked is Some ==> next == self
            },
    {
        self.lemma_peek_optional();
    }

    pub proof fn lemma_peek_value(self)
        requires
            self.can_peek(),
            !self.expects_member_name,
        ensures
            self.leads_to(self.peek_value()),
            !(self.peek_value().1 is Failed) ==> self.same_but_token(self.peek_value().0)
                && self.peek_value().0.can_peek(),
            self.peek_value().1 matches Outcome::Ready(value_type) ==> {
                let next = self.peek_value().0;
                &&& next.peeked matches Some(peeked)
                &&& !peeked.is_end()
                &&& !peeked.is_for_name()
                &&& peeked.value_type() == value_type
                &&& self.peeked is None ==> next.scan.pending.bytes.len() + peeked.len()
                    <= self.scan.pending.bytes.len()
                &&& self.peeked is Some ==> next == self
            },
    {
        self.lemma_peek_internal();
    }

    /// Whether a token was consumed between two states.
    pub open spec fn is_consumption(self, next: ReaderModel) -> bool {
        &&& next == ReaderModel {
            scan: next.scan,
            peeked: None,
            colon_read: false,
            comma: None,
            expects_member_name: next.expects_member_name,
            ..self
        }
        &&& next.scan.gap is Outside
        &&& next.scan.value is None
    }

    pub proof fn lemma_start_value(self, expected: ValueType, check_depth: bool)
        requires
            self.can_peek(),
            !self.expects_member_name,
        ensures
            self.leads_to(self.start_value(expected, check_depth)),
            self.start_value(expected, check_depth).1 is NeedsInput ==> self.same_but_token(
                self.start_value(expected, check_depth).0,
            ) && self.start_value(expected, check_depth).0.can_peek(),
            self.start_value(expected, check_depth).1 matches Outcome::Ready(peeked) ==> {
                let next = self.start_value(expected, check_depth).0;
                &&& self.is_consumption(next)
                &&& !next.expects_member_name
                &&& !peeked.is_end()
                &&& !peeked.is_for_name()
                &&& peeked.value_type() == expected
                &&& next.remaining() <= self.remaining()
                &&& !(peeked is NumberStart) ==> next.remaining() < self.remaining()
                &&& check_depth ==> !self.has_max_depth()
            },
    {
        self.lemma_peek_internal();
    }

    pub proof fn lemma_value_ended(self)
        requires
            self.consistent(),
            self.peeked is None,
            self.doing is Idle,
            !self.string_reader_active,
        ensures
            self.value_ended().consistent(),
    {
        if let Some(path) = self.path {
            if self.is_in_array() {
                assert(path[path.len() - 1] is Item);
            }
        }
    }

    pub proof fn lemma_entered(self, container: StackValue)
        requires
            self.consistent(),
            self.peeked is None,
            self.doing is Idle,
            !self.string_reader_active,
            !self.has_max_depth(),
        ensures
            self.entered(container).consistent(),
    {
    }

    pub proof fn lemma_left(self)
        requires
            self.consistent(),
            self.peeked is None,
            self.doing is Idle,
            !self.string_reader_active,
            self.stack.len() > 0,
            self.skip_base matches Some(base) ==> base < self.stack.len(),
            self.transfer matches Some(transfer) ==> transfer.base < self.stack.len(),
        ensures
            self.left().consistent(),
    {
        let shrunk = ReaderModel {
            stack: self.stack.drop_last(),
            expects_member_name: false,
            path: match self.path {
                Some(path) => Some(path.drop_last()),
                None => None,
            },
            ..self
        };
        assert(shrunk.has_matching_path()) by {
            if let Some(path) = self.path {
                assert forall|i: int| 0 <= i < path.len() - 1 implies (
                (#[trigger] path.drop_last()[i]) is Item <==> self.stack.drop_last()[i] is Array) by {
                    assert(path[i] is Item <==> self.stack[i] is Array);
                }
            }
        }
        shrunk.lemma_value_ended();
    }

    pub proof fn lemma_begin_container(self, container: StackValue)
        requires
            self.can_peek(),
            !self.expects_member_name,
        ensures
            self.leads_to(self.begin_container(container)),
            self.begin_container(container).1 is NeedsInput ==> self.same_but_token(
                self.begin_container(container).0,
            ) && self.begin_container(container).0.can_peek(),
            self.begin_container(container).1 is Ready ==> {
                let next = self.begin_container(container).0;
                &&& next.can_peek()
                &&& next.at_token()
                &&& next.remaining() < self.remaining()
                &&& next.stack == self.stack.push(container)
                &&& next.expects_member_name == (container is Object)
                &&& next.skip_base == self.skip_base
                &&& next.transfer == self.transfer
                &&& next.ongoing == self.ongoing
            },
    {
        let value_type = match container {
            StackValue::Array => ValueType::Array,
            StackValue::Object => ValueType::Object,
        };
        self.lemma_start_value(value_type, true);
        let (next, outcome) = self.start_value(value_type, true);
        if outcome is Ready {
            next.lemma_entered(container);
        }
    }

    /// Whether the reader stands in front of a token about which nothing is known yet.
    pub open spec fn at_token(self) -> bool {
        &&& self.peeked is None
        &&& !self.colon_read
        &&& self.comma is None
        &&& self.scan.gap is Outside
        &&& self.doing is Idle
    }

    pub proof fn lemma_end_container(self, container: StackValue)
        requires
            self.can_peek(),
            self.stack.len() > 0,
            self.stack.last() == container,
            container is Object ==> self.expects_member_name,
            self.skip_base matches Some(base) ==> base < self.stack.len(),
            self.transfer matches Some(transfer) ==> transfer.base < self.stack.len(),
        ensures
            self.leads_to(self.end_container(container)),
            self.end_container(container).1 is NeedsInput ==> self.same_but_token(
                self.end_container(container).0,
            ) && self.end_container(container).0.can_peek(),
            self.end_container(container).1 is Ready ==> {
                let next = self.end_container(container).0;
                &&& next.can_peek()
                &&& next.at_token()
                &&& next.remaining() < self.remaining()
                &&& next.stack == self.stack.drop_last()
                &&& !next.is_empty
                &&& next.expects_member_name == next.is_in_object()
                &&& next.skip_base == self.skip_base
                &&& next.transfer == self.transfer
                &&& next.ongoing == self.ongoing
            },
    {
        self.lemma_peek_internal();
        let (next, outcome) = self.peek_internal();
        if let Outcome::Ready(peeked) = outcome {
            if peeked.is_end() {
                next.consume_peeked().lemma_left();
            }
        }
    }

    pub proof fn lemma_check_next(self)
        requires
            self.can_peek(),
        ensures
            self.leads_to(self.check_next()),
            !(self.check_next().1 is Failed) ==> self.same_but_token(self.check_next().0)
                && self.check_next().0.can_peek(),
            self.check_next().1 is NeedsInput ==> self.check_next().0.peeked is None,
            self.check_next().1 matches Outcome::Ready(found) ==> {
                let next = self.check_next().0;
                &&& !next.colon_read
                &&& next.comma is None
                &&& next.scan.gap is Outside
                &&& found ==> next.peeked is Some && !next.peeked->0.is_end()
                &&& !found && self.stack.len() > 0 ==> next.peeked is Some
                    && next.peeked->0.is_end()
                &&& !found && self.stack.len() == 0 && !self.expects_member_name
                    ==> next.peeked is None
                &&& self.peeked is Some ==> next == self
                &&& self.peeked is None && next.peeked is Some ==> next.scan.pending.bytes.len()
                    + next.peeked->0.len() <= self.scan.pending.bytes.len()
            },
    {
        self.lemma_peek_internal();
        self.lemma_peek_optional();
    }

    pub proof fn lemma_read_bool(self)
        requires
            self.can_peek(),
            !self.expects_member_name,
        ensures
            self.leads_to(self.read_bool()),
            self.read_bool().1 is NeedsInput ==> self.same_but_token(self.read_bool().0)
                && self.read_bool().0.can_peek(),
            self.read_bool().1 is Ready ==> self.is_value_end(self.read_bool().0),
    {
        self.lemma_start_value(ValueType::Boolean, false);
        let (next, outcome) = self.start_value(ValueType::Boolean, false);
        if outcome is Ready {
            next.lemma_value_ended();
        }
    }

    pub proof fn lemma_read_null(self)
        requires
            self.can_peek(),
            !self.expects_member_name,
        ensures
            self.leads_to(self.read_null()),
            self.read_null().1 is NeedsInput ==> self.same_but_token(self.read_null().0)
                && self.read_null().0.can_peek(),
            self.read_null().1 is Ready ==> self.is_value_end(self.read_null().0),
    {
        self.lemma_start_value(ValueType::Null, false);
        let (next, outcome) = self.start_value(ValueType::Null, false);
        if outcome is Ready {
            next.lemma_value_ended();
        }
    }

    /// Whether a value was consumed completely between two states.
    pub open spec fn is_value_end(self, next: ReaderModel) -> bool {
        &&& next.can_peek()
        &&& next.at_token()
        &&& next.remaining() < self.remaining()
        &&& next.stack == self.stack
        &&& !next.is_empty
        &&& next.expects_member_name == next.is_in_object()
        &&& next.skip_base == self.skip_base
        &&& next.transfer == self.transfer
        &&& next.ongoing == self.ongoing
    }

    /// Whether the reader can start or continue reading with the given activity.
    pub open spec fn can_resume(self) -> bool {
        &&& self.consistent()
        &&& !self.string_reader_active
        &&& self.doing is Idle ==> self.can_peek()
        &&& !(self.doing is Idle) ==> {
            &&& self.peeked is None
            &&& !self.colon_read
            &&& self.comma is None
            &&& self.scan.gap is Outside
        }
    }

    pub proof fn lemma_before_name(self)
        requires
            self.can_peek(),
            self.expects_member_name,
        ensures
            self.leads_to(self.before_name()),
            self.before_name().1 is NeedsInput ==> self.same_but_token(self.before_name().0)
                && self.before_name().0.can_peek(),
            self.before_name().1 is Ready ==> {
                let next = self.before_name().0;
                &&& self.is_consumption(next)
                &&& next.expects_member_value()
                &&& next.remaining() < self.remaining()
            },
    {
        self.lemma_check_next();
    }

    pub proof fn lemma_continue_name(self)
        requires
            self.can_resume(),
            self.doing is ReadingName,
        ensures
            self.leads_to(self.continue_name()),
            self.continue_name().1 is NeedsInput ==> self.is_pause(self.continue_name().0),
            self.continue_name().1 is Ready ==> self.is_name_end(self.continue_name().0),
    {
        self.scan.lemma_read_string();
    }

    /// Whether reading got further between two states.
    pub open spec fn is_pause(self, next: ReaderModel) -> bool {
        &&& next == ReaderModel { scan: next.scan, doing: next.doing, ..self }
        &&& next.can_resume()
        &&& next.doing is ReadingNumber || next.doing == self.doing
        &&& self.doing is ReadingNumber == next.doing is ReadingNumber
        &&& next.scan.value is Some <==> self.scan.value is Some
    }

    /// Whether a member name was consumed completely between two states.
    pub open spec fn is_name_end(self, next: ReaderModel) -> bool {
        &&& next.can_peek()
        &&& next.at_token()
        &&& next.remaining() < self.remaining()
        &&& next.stack == self.stack
        &&& next.expects_member_value()
        &&& next.skip_base == self.skip_base
        &&& next.transfer == self.transfer
        &&& next.ongoing == self.ongoing
    }

    pub proof fn lemma_read_name(self, keep: bool)
        requires
            self.can_resume(),
            self.path is Some ==> keep,
            self.doing is Idle && self.expects_member_name || self.doing is ReadingName,
        ensures
            self.leads_to(self.read_name(keep)),
            self.read_name(keep).1 is NeedsInput ==> {
                let next = self.read_name(keep).0;
                &&& next.can_resume()
                &&& next.stack == self.stack
                &&& next.skip_base == self.skip_base
                &&& next.transfer == self.transfer
                &&& next.doing is Idle && next.expects_member_name || next.doing is ReadingName
                &&& self.doing is Idle && next.doing is ReadingName ==> (next.scan.value is Some
                    <==> keep)
                &&& self.doing is ReadingName ==> next.doing is ReadingName && (next.scan.value
                    is Some <==> self.scan.value is Some)
            },
            self.read_name(keep).1 is Ready ==> self.is_name_end(self.read_name(keep).0),
    {
        if self.doing is ReadingName {
            self.lemma_continue_name();
        } else {
            self.lemma_before_name();
            let (next, outcome) = self.before_name();
            if outcome is Ready {
                next.reading(Doing::ReadingName, keep).lemma_continue_name();
            }
        }
    }

    pub proof fn lemma_continue_string(self)
        requires
            self.can_resume(),
            self.doing is ReadingString,
        ensures
            self.leads_to(self.continue_string()),
            self.continue_string().1 is NeedsInput ==> self.is_pause(self.continue_string().0),
            self.continue_string().1 is Ready ==> self.is_value_end(self.continue_string().0),
    {
        self.scan.lemma_read_string();
        let (scan, end) = self.scan.read_string();
        let next = ReaderModel { scan, ..self };
        if end is Quote {
            next.string_closed().lemma_value_ended();
        }
    }

    /// What holds while a value is read which stops because of missing data.
    pub open spec fn is_value_pause(self, next: ReaderModel, keep: bool) -> bool {
        &&& next.can_resume()
        &&& next.stack == self.stack
        &&& !next.expects_member_name
        &&& next.skip_base == self.skip_base
        &&& next.transfer == self.transfer
        &&& self.doing is Idle && !(next.doing is Idle) ==> (next.scan.value is Some <==> keep)
        &&& !(self.doing is Idle) ==> !(next.doing is Idle) && (next.scan.value is Some
            <==> self.scan.value is Some)
    }

    pub proof fn lemma_read_string(self, keep: bool)
        requires
            self.can_resume(),
            self.doing is Idle && !self.expects_member_name || self.doing is ReadingString,
        ensures
            self.leads_to(self.read_string(keep)),
            self.read_string(keep).1 is NeedsInput ==> {
                let next = self.read_string(keep).0;
                &&& self.is_value_pause(next, keep)
                &&& next.doing is Idle || next.doing is ReadingString
            },
            self.read_string(keep).1 is Ready ==> self.is_value_end(self.read_string(keep).0),
    {
        if self.doing is ReadingString {
            self.lemma_continue_string();
        } else {
            self.lemma_start_value(ValueType::String, false);
            let (next, outcome) = self.start_value(ValueType::String, false);
            if outcome is Ready {
                next.reading(Doing::ReadingString, keep).lemma_continue_string();
            }
        }
    }

    pub proof fn lemma_continue_number(self, progress: NumberProgress)
        requires
            self.can_resume(),
            self.doing == Doing::ReadingNumber(progress),
        ensures
            self.leads_to(self.continue_number(progress)),
            self.continue_number(progress).1 is NeedsInput ==> self.is_pause(
                self.continue_number(progress).0,
            ),
            self.continue_number(progress).1 is Ready ==> {
                let next = self.continue_number(progress).0;
                &&& self.is_value_end(next)
                &&& progress == NumberProgress::start() ==> next.remaining() + 1 < self.remaining()
            },
    {
        self.scan.lemma_read_number(progress);
        let (scan, advanced, end) = self.scan.read_number(progress);
        let next = ReaderModel { scan, doing: Doing::ReadingNumber(advanced), ..self };
        if end is Complete {
            ReaderModel {
                scan: ScanState {
                    value: None,
                    spot: next.scan.spot.moved(advanced.len, advanced.len),
                    ..next.scan
                },
                doing: Doing::Idle,
                ..next
            }.lemma_value_ended();
        }
    }

    pub proof fn lemma_read_number(self, keep: bool)
        requires
            self.can_resume(),
            self.doing is Idle && !self.expects_member_name || self.doing is ReadingNumber,
        ensures
            self.leads_to(self.read_number(keep)),
            self.read_number(keep).1 is NeedsInput ==> {
                let next = self.read_number(keep).0;
                &&& self.is_value_pause(next, keep)
                &&& next.doing is Idle || next.doing is ReadingNumber
            },
            self.read_number(keep).1 is Ready ==> self.is_value_end(self.read_number(keep).0),
    {
        match self.doing {
            Doing::ReadingNumber(progress) => {
                self.lemma_continue_number(progress);
            },
            _ => {
                self.lemma_start_value(ValueType::Number, false);
                let (next, outcome) = self.start_value(ValueType::Number, false);
                if outcome is Ready {
                    let progress = NumberProgress::start();
                    let reading = next.reading(Doing::ReadingNumber(progress), keep);
                    reading.lemma_continue_number(progress);
                }
            },
        }
    }
}

} // verus!
