//! Laws on the nesting of arrays and objects, on peeking and on positions.

use vstd::prelude::*;

use crate::error::{Outcome, Problem, ValueType};
use crate::frame::Purpose;
use crate::model::{Operation, ReaderModel, TransferProgress};
use crate::scan::{GapEnd, ScanState};
use crate::token::{PeekedValue, StackValue};
use crate::traversal::Transferred;

verus! {

impl ScanState {
    /// If the data ends behind a gap then nothing is left.
    proof fn lemma_ends_at_eof(self, allow_comments: bool)
        ensures
            self.skip_gap(allow_comments).1 is Eof ==> {
                let next = self.skip_gap(allow_comments).0;
                &&& next.pending.bytes.len() == 0
                &&& next.pending.eof
                &&& next.gap is Outside
            },
        decreases self.pending.bytes.len(),
    {
        self.lemma_gap_step(allow_comments);
        let (next, end) = self.gap_step(allow_comments);
        if end is None {
            next.lemma_ends_at_eof(allow_comments);
        }
    }
}

impl ReaderModel {
    // ---- Nesting ----

    /// Never more arrays and objects are nested than the settings allow.
    pub proof fn law_nesting_is_limited(self)
        requires
            self.valid(),
        ensures
            self.settings.max_nesting_depth matches Some(max) ==> self.stack.len() <= max,
    {
    }

    /// An array which is next can be started if and only if the maximum nesting depth has not been
    /// reached; otherwise the error tells the limit and points at the array.
    pub proof fn law_array_start(self)
        requires
            self.valid(),
            self.misuse(Operation::BeginArray) is None,
            self.peek().1 == Outcome::Ready(ValueType::Array),
        ensures
            ({
                let peeked = self.peek().0;
                let (next, outcome) = self.begin_array();
                if peeked.has_max_depth() {
                    outcome == Outcome::<()>::Failed(
                        Problem::Depth(self.settings.max_nesting_depth->0, peeked.place()),
                    )
                } else {
                    &&& outcome == Outcome::Ready(())
                    &&& next.stack == self.stack.push(StackValue::Array)
                    &&& !next.expects_member_name
                    &&& next.is_empty
                }
            }),
    {
        self.lemma_ready(Operation::BeginArray);
        let m = self.picked_up();
        m.lemma_peek_internal();
    }

    /// As [`law_array_start`](Self::law_array_start), for objects.
    pub proof fn law_object_start(self)
        requires
            self.valid(),
            self.misuse(Operation::BeginObject) is None,
            self.peek().1 == Outcome::Ready(ValueType::Object),
        ensures
            ({
                let peeked = self.peek().0;
                let (next, outcome) = self.begin_object();
                if peeked.has_max_depth() {
                    outcome == Outcome::<()>::Failed(
                        Problem::Depth(self.settings.max_nesting_depth->0, peeked.place()),
                    )
                } else {
                    &&& outcome == Outcome::Ready(())
                    &&& next.stack == self.stack.push(StackValue::Object)
                    &&& next.expects_member_name
                    &&& next.is_empty
                }
            }),
    {
        self.lemma_ready(Operation::BeginObject);
        let m = self.picked_up();
        m.lemma_peek_internal();
    }

    /// Ending an array or object undoes starting it: afterwards the reader is behind a value in the
    /// enclosing array or object.
    pub proof fn law_end_undoes_begin(self)
        requires
            self.valid(),
            self.ongoing is None,
            self.misuse(Operation::BeginArray) is None,
        ensures
            ({
                let (inside, begun) = self.begin_array();
                let (behind, ended) = inside.end_array();
                begun is Ready && ended is Ready ==> {
                    &&& behind.stack == self.stack
                    &&& behind.path == self.value_ended().path
                    &&& behind.expects_member_name == self.value_ended().expects_member_name
                    &&& !behind.is_empty
                }
            }),
            ({
                let (inside, begun) = self.begin_object();
                let (behind, ended) = inside.end_object();
                begun is Ready && ended is Ready ==> {
                    &&& behind.stack == self.stack
                    &&& behind.path == self.value_ended().path
                    &&& behind.expects_member_name == self.value_ended().expects_member_name
                    &&& !behind.is_empty
                }
            }),
    {
        self.lemma_ready(Operation::BeginArray);
        self.lemma_array_undone();
        self.lemma_object_undone();
    }

    proof fn lemma_array_undone(self)
        requires
            self.is_ready_for(Operation::BeginArray),
        ensures
            ({
                let (inside, begun) = self.begin_array();
                let (behind, ended) = inside.end_array();
                begun is Ready && ended is Ready ==> {
                    &&& behind.stack == self.stack
                    &&& behind.path == self.value_ended().path
                    &&& behind.expects_member_name == self.value_ended().expects_member_name
                    &&& !behind.is_empty
                }
            }),
    {
        self.lemma_container_undone(StackValue::Array);
        let (inside, begun) = self.picked_up().begin_container(StackValue::Array);
        self.picked_up().lemma_begin_container(StackValue::Array);
        if begun is Ready {
            assert(inside.ongoing is None);
            assert(self.begin_array() == (inside, begun));
            assert(inside.picked_up() == inside);
        }
    }

    proof fn lemma_object_undone(self)
        requires
            self.is_ready_for(Operation::BeginArray),
        ensures
            ({
                let (inside, begun) = self.begin_object();
                let (behind, ended) = inside.end_object();
                begun is Ready && ended is Ready ==> {
                    &&& behind.stack == self.stack
                    &&& behind.path == self.value_ended().path
                    &&& behind.expects_member_name == self.value_ended().expects_member_name
                    &&& !behind.is_empty
                }
            }),
    {
        self.lemma_container_undone(StackValue::Object);
        let (inside, begun) = self.picked_up().begin_container(StackValue::Object);
        self.picked_up().lemma_begin_container(StackValue::Object);
        if begun is Ready {
            assert(inside.ongoing is None);
            assert(self.begin_object() == (inside, begun));
            assert(inside.picked_up() == inside);
        }
    }

    proof fn lemma_container_undone(self, container: StackValue)
        requires
            self.can_peek(),
            !self.expects_member_name,
            self.skip_base is None,
            self.transfer is None,
        ensures
            ({
                let (inside, begun) = self.picked_up().begin_container(container);
                let (behind, ended) = inside.end_container(container);
                begun is Ready && ended is Ready ==> {
                    &&& behind.stack == self.stack
                    &&& behind.path == self.value_ended().path
                    &&& behind.expects_member_name == self.value_ended().expects_member_name
                    &&& !behind.is_empty
                    &&& inside.ongoing is None
                }
            }),
    {
        let m = self.picked_up();
        m.lemma_begin_container(container);
        let value_type = match container {
            StackValue::Array => ValueType::Array,
            StackValue::Object => ValueType::Object,
        };
        m.lemma_start_value(value_type, true);
        let (started, _) = m.start_value(value_type, true);
        let (inside, begun) = m.begin_container(container);
        if begun is Ready {
            assert(inside == started.entered(container));
            inside.lemma_peek_internal();
            let (peeked, outcome) = inside.peek_internal();
            if outcome is Ready {
                assert(peeked.stack.drop_last() =~= self.stack);
                if let Some(path) = self.path {
                    assert(peeked.path->0.drop_last() =~= path);
                }
            }
        }
    }

    /// Skipping a value neither enters nor leaves an array or object: afterwards the reader is
    /// behind a value in the same array or object.
    pub proof fn law_skip_value_keeps_nesting(self)
        requires
            self.valid(),
            self.ongoing is None,
            self.misuse(Operation::SkipValue) is None,
        ensures
            self.skip_value().1 is Ready ==> {
                let next = self.skip_value().0;
                &&& next.stack == self.stack
                &&& next.expects_member_name == self.is_in_object()
                &&& !next.is_empty
                &&& next.at_rest()
            },
    {
        self.lemma_ready(Operation::SkipValue);
        self.lemma_skip_value();
        self.picked_up().lemma_pass_value();
        assert(self.stack.take(self.stack.len() as int) =~= self.stack);
    }

    /// After skipping to the top-level no array or object is open anymore.
    pub proof fn law_skip_to_top_level_leaves_all(self)
        requires
            self.valid(),
            self.misuse(Operation::SkipToTopLevel) is None,
        ensures
            self.skip_to_top_level().1 is Ready ==> {
                let next = self.skip_to_top_level().0;
                &&& next.stack.len() == 0
                &&& !next.expects_member_name
                &&& next.at_rest()
            },
    {
        self.lemma_ready(Operation::SkipToTopLevel);
        self.lemma_skip_to_top_level();
        self.picked_up().lemma_pass_to_top_level();
    }

    /// A value which was transferred completely leaves the reader behind it, in the same array or
    /// object.
    pub proof fn law_transfer_keeps_nesting(self)
        requires
            self.valid(),
            self.ongoing == Some(Operation::TransferTo),
        ensures
            self.transfer_next().1 == Outcome::Ready(Transferred::Finished) ==> {
                let next = self.transfer_next().0;
                &&& self.transfer is Some
                &&& next.stack == self.stack.take(self.transfer->0.base as int)
                &&& next.at_rest()
            },
            self.transfer is Some && !(self.transfer_next().1 is Failed)
                && self.transfer_next().1 != Outcome::Ready(Transferred::Finished) ==> {
                let next = self.transfer_next().0;
                &&& next.transfer is Some
                &&& next.transfer->0.base == self.transfer->0.base
                &&& next.stack.take(self.transfer->0.base as int) == self.stack.take(
                    self.transfer->0.base as int,
                )
            },
    {
        self.lemma_ready(Operation::TransferTo);
        self.lemma_transfer_next();
        reveal(ReaderModel::transfer_any);
        let m = self.picked_up();
        match m.transfer {
            Some(transfer) => {
                m.lemma_transfer_step(transfer);
                let (next, outcome) = m.transfer_step(transfer);
                if outcome == Outcome::Ready(Transferred::Finished) {
                    assert(next.stack.take(transfer.base as int) =~= next.stack);
                }
            },
            None => {
                let transfer = TransferProgress {
                    base: m.stack.len(),
                    started: false,
                };
                let transferring = ReaderModel { transfer: Some(transfer), ..m };
                transferring.lemma_transfer_not_finished(transfer);
            },
        }
    }

    /// A transfer which has not been started is not finished.
    proof fn lemma_transfer_not_finished(self, transfer: TransferProgress)
        requires
            self.doing is Idle,
            self.stack.len() == transfer.base,
            !transfer.started,
        ensures
            self.transfer_step(transfer).1 != Outcome::Ready(Transferred::Finished),
    {
    }

    /// The JSON path has one piece for each started array and object, of the right kind.
    pub proof fn law_path_matches_nesting(self)
        requires
            self.valid(),
            self.settings.track_path,
        ensures
            self.path is Some,
            self.path->0.len() == self.stack.len(),
            forall|i: int|
                0 <= i < self.stack.len() ==> ((#[trigger] self.path->0[i]) is Item <==> self.stack[i]
                    is Array),
    {
    }

    // ---- Peeking ----

    /// Peeking again gives the same result and changes nothing.
    pub proof fn law_peek_is_idempotent(self)
        requires
            self.valid(),
            self.misuse(Operation::Peek) is None,
        ensures
            self.peek().1 is Ready ==> self.peek().0.peek() == self.peek(),
    {
        self.lemma_ready(Operation::Peek);
        self.picked_up().lemma_peek_value();
    }

    /// Peeking at the next token again gives the same token without needing any data, and changes
    /// nothing. The place is the start of the token: its bytes, behind which only the unconsumed
    /// ones follow, have not been counted.
    pub proof fn law_token_is_kept(self)
        requires
            self.can_peek(),
        ensures
            self.peek_optional().1 matches Outcome::Ready(Some(token)) ==> {
                let (next, outcome) = self.peek_optional();
                &&& next.peek_optional() == (next, outcome)
                &&& next.peek_internal() == (next, Outcome::Ready(token))
                &&& next.scan.spot.byte_pos + token.len() + next.scan.pending.bytes.len()
                    == self.scan.total() + self.unaccounted()
            },
            self.peek_internal().1 matches Outcome::Ready(token) ==> self.peek_optional() == (
                self.peek_internal().0,
                Outcome::Ready(Some(token)),
            ),
    {
        self.lemma_peek_optional();
        self.lemma_peek_internal();
    }

    /// Checking again for a next element gives the same result and changes nothing.
    pub proof fn law_has_next_is_idempotent(self)
        requires
            self.valid(),
            self.misuse(Operation::HasNext) is None,
        ensures
            self.has_next().1 is Ready ==> self.has_next().0.has_next() == self.has_next(),
    {
        reveal(ReaderModel::has_next);
        self.lemma_ready(Operation::HasNext);
        self.picked_up().lemma_check_next();
        let m = self.picked_up();
        if m.stack.len() == 0 && m.peek_optional().1 == Outcome::Ready(None::<PeekedValue>) {
            m.lemma_end_is_kept();
        }
    }

    /// The end of the data is reached again.
    proof fn lemma_end_is_kept(self)
        requires
            self.can_peek(),
            self.stack.len() == 0,
            self.peek_optional().1 == Outcome::Ready(None::<PeekedValue>),
        ensures
            self.peek_optional().0.peek_optional() == self.peek_optional(),
    {
        let allow_comments = self.settings.allow_comments;
        if self.comma is Some {
            self.lemma_peek_after_comma();
        }
        let (scan, _) = self.scan.skip_gap(allow_comments);
        self.scan.lemma_ends_at_eof(allow_comments);
        scan.lemma_gap_step(allow_comments);
        assert(scan.skip_gap(allow_comments) == (scan, GapEnd::Eof));
    }

    /// Peeking does not influence what is read, skipped or transferred afterwards.
    pub proof fn law_peek_is_harmless(self)
        requires
            self.valid(),
            self.ongoing is None,
            self.misuse(Operation::Peek) is None,
            self.peek().1 is Ready,
        ensures
            self.peek().0.next_string() == self.next_string(),
            self.peek().0.next_number() == self.next_number(),
            self.peek().0.next_bool() == self.next_bool(),
            self.peek().0.next_null() == self.next_null(),
            self.peek().0.begin_array() == self.begin_array(),
            self.peek().0.begin_object() == self.begin_object(),
            self.peek().0.next_string_reader() == self.next_string_reader(),
            self.peek().0.skip_value() == self.skip_value(),
            self.peek().0.transfer_next() == self.transfer_next(),
            self.stack.len() > 0 ==> self.peek().0.skip_to_top_level() == self.skip_to_top_level(),
    {
        self.lemma_ready(Operation::Peek);
        let m = self.picked_up();
        m.lemma_peek_internal();
        m.lemma_peek_value();
        let (next, outcome) = m.peek_internal();
        assert(next.peek_internal() == (next, outcome));
        assert(self.peek().0 == next);
        m.lemma_skip_of_token();
        m.lemma_transfer_of_token();
        if self.stack.len() > 0 {
            m.lemma_skip_to_top_level_of_token();
        }
    }

    /// Checking for a next element does not influence what is read or skipped afterwards.
    pub proof fn law_has_next_is_harmless(self)
        requires
            self.valid(),
            self.ongoing is None,
            self.misuse(Operation::HasNext) is None,
            self.has_next().1 is Ready,
            self.stack.len() > 0 || self.has_next().1 == Outcome::Ready(true),
        ensures
            self.has_next().0.peek() == self.peek(),
            self.has_next().0.next_string() == self.next_string(),
            self.has_next().0.next_string_reader() == self.next_string_reader(),
            self.has_next().0.next_number() == self.next_number(),
            self.has_next().0.next_bool() == self.next_bool(),
            self.has_next().0.next_null() == self.next_null(),
            self.has_next().0.begin_array() == self.begin_array(),
            self.has_next().0.begin_object() == self.begin_object(),
            self.has_next().0.end_array() == self.end_array(),
            self.has_next().0.end_object() == self.end_object(),
            self.has_next().0.next_name() == self.next_name(),
            self.has_next().0.skip_name() == self.skip_name(),
            !self.expects_member_name ==> {
                &&& self.has_next().0.skip_value() == self.skip_value()
                &&& self.has_next().0.transfer_next() == self.transfer_next()
            },
            self.stack.len() > 0 ==> self.has_next().0.skip_to_top_level()
                == self.skip_to_top_level(),
    {
        reveal(ReaderModel::has_next);
        reveal(ReaderModel::next_name);
        self.lemma_ready(Operation::HasNext);
        let m = self.picked_up();
        m.lemma_check_next();
        m.lemma_peek_optional();
        m.lemma_peek_internal();
        let next = m.check_next().0;
        assert(self.has_next().0 == next);
        assert(m.peek_internal().0 == next);
        assert(next.peek_internal() == (next, m.peek_internal().1));
        assert(next.check_next() == m.check_next());
        if !m.expects_member_name {
            m.lemma_skip_of_token();
            m.lemma_transfer_of_token();
        }
        if self.stack.len() > 0 {
            m.lemma_skip_to_top_level_of_token();
        }
    }

    /// That the next token is known already makes no difference for skipping a value.
    proof fn lemma_skip_of_token(self)
        requires
            self.can_peek(),
            self.skip_base is None,
            self.transfer is None,
            !self.expects_member_name,
            self.peek_internal().1 is Ready,
        ensures
            self.peek_internal().0.pass_value() == self.pass_value(),
    {
        self.lemma_peek_internal();
        let base = self.stack.len();
        let purpose = Purpose { skip_base: Some(base), transfer: None, ongoing: self.ongoing };
        self.lemma_peek_internal_indifferent(purpose);
        let next = self.peek_internal().0;
        let before = self.skipping(base);
        let after = next.skipping(base);
        assert(self.with_purpose(purpose) == before);
        assert(next.with_purpose(purpose) == after);
        assert(after.peek_internal() == before.peek_internal());
        assert(after.skip_step(base) == before.skip_step(base));
        before.lemma_skip_step(base);
        after.lemma_skip_step(base);
    }

    /// That the next token is known already makes no difference for transferring a value.
    proof fn lemma_transfer_of_token(self)
        requires
            self.can_peek(),
            self.skip_base is None,
            self.transfer is None,
            !self.expects_member_name,
            self.peek_internal().1 is Ready,
        ensures
            self.peek_internal().0.transfer_any() == self.transfer_any(),
    {
        reveal(ReaderModel::transfer_any);
        self.lemma_peek_internal();
        let transfer = TransferProgress { base: self.stack.len(), started: false };
        let purpose = Purpose {
            skip_base: None,
            transfer: Some(transfer),
            ongoing: self.ongoing,
        };
        self.lemma_peek_internal_indifferent(purpose);
        let next = self.peek_internal().0;
        let before = self.with_purpose(purpose);
        let after = next.with_purpose(purpose);
        assert(after.peek_internal() == before.peek_internal());
        assert(after.peek_value() == before.peek_value());
        assert(self.transfer_any() == before.transfer_value());
        assert(next.transfer_any() == after.transfer_value());
    }

    /// That the next token is known already makes no difference for skipping to the top-level.
    proof fn lemma_skip_to_top_level_of_token(self)
        requires
            self.can_peek(),
            self.skip_base is None,
            self.transfer is None,
            self.stack.len() > 0,
            self.can_pass_to_top_level(),
            self.peek_internal().1 is Ready,
        ensures
            self.peek_internal().0.pass_to_top_level() == self.pass_to_top_level(),
    {
        self.lemma_peek_internal();
        let next = self.peek_internal().0;
        assert(next.peek_internal() == self.peek_internal());
        if self.expects_member_value() {
            self.lemma_skip_of_token();
        } else {
            assert(next.check_next() == self.check_next());
        }
        assert(next.top_level_step() == self.top_level_step());
        assert(next.can_pass_to_top_level());
        self.lemma_top_level_step();
        next.lemma_top_level_step();
    }

    /// Trying to read a value of the wrong type does not consume anything: the error tells the
    /// actual type, and afterwards the value can still be read.
    pub proof fn law_wrong_type_consumes_nothing(self)
        requires
            self.valid(),
            self.ongoing is None,
            self.misuse(Operation::Peek) is None,
        ensures
            self.peek().1 matches Outcome::Ready(actual) ==> {
                let peeked = self.peek().0;
                &&& !(actual is Boolean) ==> self.next_bool() == (
                    peeked,
                    Outcome::<bool>::Failed(
                        Problem::ValueType(ValueType::Boolean, actual, peeked.place()),
                    ),
                )
                &&& !(actual is Null) ==> self.next_null() == (
                    peeked,
                    Outcome::<()>::Failed(
                        Problem::ValueType(ValueType::Null, actual, peeked.place()),
                    ),
                )
                &&& !(actual is String) ==> self.next_string() == (
                    peeked,
                    Outcome::<Seq<char>>::Failed(
                        Problem::ValueType(ValueType::String, actual, peeked.place()),
                    ),
                )
                &&& !(actual is Number) ==> self.next_number() == (
                    peeked,
                    Outcome::<Seq<char>>::Failed(
                        Problem::ValueType(ValueType::Number, actual, peeked.place()),
                    ),
                )
                &&& !(actual is Array) ==> self.begin_array() == (
                    peeked,
                    Outcome::<()>::Failed(
                        Problem::ValueType(ValueType::Array, actual, peeked.place()),
                    ),
                )
                &&& !(actual is Object) ==> self.begin_object() == (
                    peeked,
                    Outcome::<()>::Failed(
                        Problem::ValueType(ValueType::Object, actual, peeked.place()),
                    ),
                )
            },
    {
        self.lemma_ready(Operation::Peek);
        self.lemma_peek();
        let m = self.picked_up();
        m.lemma_peek_internal();
        m.lemma_peek_value();
        let (next, outcome) = m.peek_internal();
        if self.peek().1 is Ready {
            assert(self.peek().0 == next);
            assert(next.settled() == next);
        }
    }

    /// Wherever a value of some type is started: if another one is next, the error tells both types
    /// and points at the start of the value, and only the token ahead has been determined.
    pub proof fn law_wrong_type_is_reported(self, expected: ValueType, check_depth: bool)
        requires
            self.can_peek(),
            self.skip_base is None,
            self.transfer is None,
            self.ongoing is None,
            !self.expects_member_name,
        ensures
            self.peek_value().1 matches Outcome::Ready(actual) ==> actual != expected ==> {
                let peeked = self.peek_value().0;
                &&& self.start_value(expected, check_depth) == (
                    peeked,
                    Outcome::<PeekedValue>::Failed(
                        Problem::ValueType(expected, actual, peeked.place()),
                    ),
                )
                &&& peeked.peek_value() == self.peek_value()
            },
    {
        self.lemma_peek_internal();
        self.lemma_peek_value();
        let next = self.peek_internal().0;
        if self.peek_value().1 is Ready {
            assert(next.settled() == next);
            assert(next.peek_internal() == (next, self.peek_internal().1));
        }
    }

    // ---- Positions ----

    /// Line and column never exceed the number of processed bytes, and the positions fit into the
    /// integers which represent them.
    pub proof fn law_position_is_bounded(self)
        requires
            self.valid(),
        ensures
            self.scan.spot.line <= self.scan.spot.byte_pos,
            self.scan.spot.column <= self.scan.spot.byte_pos,
            self.scan.spot.byte_pos + self.unaccounted() + self.scan.pending.bytes.len()
                <= u64::MAX,
    {
    }

    /// Whether the byte position accounts for the given number of bytes after an operation which
    /// has not failed.
    pub open spec fn counts<T>(stop: (ReaderModel, Outcome<T>), count: nat) -> bool {
        !(stop.1 is Failed) ==> stop.0.scan.total() + stop.0.unaccounted() == count
    }

    /// No byte is lost or counted twice: as long as nothing fails, the byte position together with
    /// the consumed but not yet counted bytes and the unconsumed ones is the number of received
    /// bytes. Shown here for each operation.
    pub proof fn law_bytes_are_counted_once(self, operation: Operation)
        requires
            self.valid(),
            self.misuse(operation) is None,
        ensures
            ({
                let count = self.scan.total() + self.unaccounted();
                match operation {
                    Operation::Peek => ReaderModel::counts(self.peek(), count),
                    Operation::BeginArray => ReaderModel::counts(self.begin_array(), count),
                    Operation::EndArray => ReaderModel::counts(self.end_array(), count),
                    Operation::BeginObject => ReaderModel::counts(self.begin_object(), count),
                    Operation::EndObject => ReaderModel::counts(self.end_object(), count),
                    Operation::HasNext => ReaderModel::counts(self.has_next(), count),
                    Operation::NextName => ReaderModel::counts(self.next_name(), count),
                    Operation::NextString => ReaderModel::counts(self.next_string(), count),
                    Operation::NextStringReader => ReaderModel::counts(self.next_string_reader(), count),
                    Operation::NextNumber => ReaderModel::counts(self.next_number(), count),
                    Operation::NextBool => ReaderModel::counts(self.next_bool(), count),
                    Operation::NextNull => ReaderModel::counts(self.next_null(), count),
                    Operation::SkipName => ReaderModel::counts(self.skip_name(), count),
                    Operation::SkipValue => ReaderModel::counts(self.skip_value(), count),
                    Operation::SkipToTopLevel => ReaderModel::counts(self.skip_to_top_level(), count),
                    Operation::TransferTo => ReaderModel::counts(self.transfer_next(), count),
                    Operation::ConsumeTrailingWhitespace => {
                        ReaderModel::counts(self.consume_trailing_whitespace(), count)
                    },
                }
            }),
    {
        self.lemma_ready(operation);
        match operation {
            Operation::Peek => self.lemma_peek(),
            Operation::BeginArray => self.lemma_begin_array(),
            Operation::EndArray => self.lemma_end_array(),
            Operation::BeginObject => self.lemma_begin_object(),
            Operation::EndObject => self.lemma_end_object(),
            Operation::HasNext => self.lemma_has_next(),
            Operation::NextName => self.lemma_next_name(),
            Operation::NextString => self.lemma_next_string(),
            Operation::NextStringReader => self.lemma_next_string_reader(),
            Operation::NextNumber => self.lemma_next_number(),
            Operation::NextBool => self.lemma_next_bool(),
            Operation::NextNull => self.lemma_next_null(),
            Operation::SkipName => self.lemma_skip_name(),
            Operation::SkipValue => self.lemma_skip_value(),
            Operation::SkipToTopLevel => self.lemma_skip_to_top_level(),
            Operation::TransferTo => self.lemma_transfer_next(),
            Operation::ConsumeTrailingWhitespace => self.lemma_consume_trailing_whitespace(),
        }
    }
}

} // verus!
