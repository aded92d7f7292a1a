//! Consumption of values and member names.

use vstd::prelude::*;
use vstd::utf8::*;

use super::JsonStreamReader;
use crate::buffer::BytesValue;
use crate::error::{
    Outcome, Problem, ReaderError, Stop, SyntaxErrorKind, UnexpectedStructureKind, ValueType,
};
use crate::lookahead::Ahead;
use crate::model::Activity;
use crate::number::{NumberEnd, NumberState};
use crate::position::{JsonPathPiece, PathPiece};
use crate::scan::StringEnd;
use crate::token::{PeekedValue, StackValue};

verus! {

impl<R> JsonStreamReader<R> {
    // ---- General values ----

    /// Consumes the start of a value, which must have the expected type.
    ///
    /// A value of another type is not consumed; it has only been peeked at.
    pub(super) fn start_expected_value_type(
        &mut self,
        expected: ValueType,
        check_depth: bool,
    ) -> (result: Result<PeekedValue, Stop>)
        requires
            old(self).scanner.wf(),
            old(self)@.can_peek(),
            !old(self)@.expects_member_name,
        ensures
            old(self).moved_to(*final(self), old(self)@.start_value(expected, check_depth).0),
            old(self)@.start_value(expected, check_depth).1.is_result(result),
            old(self)@.peek_value().1 matches Outcome::Ready(actual) ==> actual != expected ==> {
                let peeked = old(self)@.peek_value().0;
                &&& result matches Err(Stop::Error(error)) && error.reports(
                    Problem::ValueType(expected, actual, peeked.place()),
                )
                &&& final(self)@ == peeked.settled()
            },
    {
        proof {
            self@.lemma_peek_internal();
        }
        let peeked_internal = self.peek_internal()?;
        let peeked = self.map_peeked(peeked_internal)?;
        if peeked != expected {
            let location = self.create_error_location();
            return self.fail(
                ReaderError::UnexpectedValueType { expected, actual: peeked, location },
            );
        }
        if check_depth {
            // Check nesting depth before consuming token, so that error location points
            // at token instead of behind it
            if let Some(max_nesting_depth) = self.reader_settings.max_nesting_depth {
                if self.stack.len() >= max_nesting_depth as usize {
                    let location = self.create_error_location();
                    return self.fail(
                        ReaderError::MaxNestingDepthExceeded { max_nesting_depth, location },
                    );
                }
            }
        }
        self.consume_peeked();
        Ok(peeked_internal)
    }

    pub(super) fn on_value_end(&mut self)
        requires
            old(self).scanner.wf(),
            old(self)@.has_matching_path(),
        ensures
            old(self).moved_to(*final(self), old(self)@.value_ended()),
            final(self).scanner == old(self).scanner,
    {
        // Update array path
        if self.is_in_array() {
            if let Some(path) = &mut self.json_path {
                let ghost before = path@;
                proof {
                    let pieces = PathPiece::all(before);
                    assert(pieces[pieces.len() - 1] is Item);
                }
                if let Some(JsonPathPiece::ArrayItem(index)) = path.pop() {
                    path.push(JsonPathPiece::ArrayItem(index.wrapping_add(1)));
                    assert(PathPiece::all(path@) =~= PathPiece::all(before).drop_last().push(
                        PathPiece::Item(crate::model::next_index(index)),
                    ));
                }
            }
        }
        // After value was consumed indicate that object member name is expected next
        if self.is_in_object() {
            self.expects_member_name = true;
        }
        // Enclosing container is not empty since this method call here is processing its child
        self.is_empty = false;
    }

    pub(super) fn on_container_start(&mut self, container: StackValue) -> (result: Result<(), Stop>)
        requires
            old(self).scanner.wf(),
            old(self)@.can_peek(),
            !old(self)@.expects_member_name,
        ensures
            old(self).moved_to(*final(self), old(self)@.begin_container(container).0),
            old(self)@.begin_container(container).1.is_result(result),
    {
        let value_type = match container {
            StackValue::Array => ValueType::Array,
            StackValue::Object => ValueType::Object,
        };
        self.start_expected_value_type(value_type, true)?;
        self.stack.push(container);
        // The new container is initially empty
        self.is_empty = true;
        let piece = match container {
            StackValue::Array => JsonPathPiece::ArrayItem(0),
            // Placeholder which is replaced once the name of the first member is read
            StackValue::Object => JsonPathPiece::ObjectMember("<?>".to_owned()),
        };
        let ghost shown = piece@;
        if let Some(path) = &mut self.json_path {
            let ghost pieces = PathPiece::all(path@);
            path.push(piece);
            assert(PathPiece::all(path@) =~= pieces.push(shown));
        }
        self.expects_member_name = match container {
            StackValue::Array => false,
            StackValue::Object => true,
        };
        Ok(())
    }

    pub(super) fn on_container_end(&mut self)
        requires
            old(self).scanner.wf(),
            old(self)@.has_matching_path(),
            old(self)@.stack.len() > 0,
        ensures
            old(self).moved_to(*final(self), old(self)@.left()),
    {
        self.stack.pop();
        if let Some(path) = &mut self.json_path {
            let ghost before = path@;
            path.pop();
            proof {
                let pieces = PathPiece::all(before);
                assert(PathPiece::all(path@) =~= pieces.drop_last());
                assert forall|i: int| 0 <= i < pieces.len() - 1 implies (#[trigger] pieces.drop_last()[i])
                    == pieces[i] by {}
            }
        }
        // Clear this in case the enclosing container is an array; it is set again if the
        // enclosing container is an object
        self.expects_member_name = false;
        self.on_value_end();
    }

    pub(super) fn end_container(&mut self, container: StackValue) -> (result: Result<(), Stop>)
        requires
            old(self).scanner.wf(),
            old(self)@.can_peek(),
            old(self)@.stack.len() > 0,
        ensures
            old(self).moved_to(*final(self), old(self)@.end_container(container).0),
            old(self)@.end_container(container).1.is_result(result),
    {
        proof {
            self@.lemma_peek_internal();
        }
        let end = match container {
            StackValue::Array => PeekedValue::ArrayEnd,
            StackValue::Object => PeekedValue::ObjectEnd,
        };
        let peeked = self.peek_internal()?;
        if peeked != end {
            return self.create_structure_error(UnexpectedStructureKind::MoreElementsThanExpected);
        }
        self.consume_peeked();
        self.on_container_end();
        Ok(())
    }

    pub(super) fn check_next(&mut self) -> (result: Result<bool, Stop>)
        requires
            old(self).scanner.wf(),
            old(self)@.can_peek(),
        ensures
            old(self).moved_to(*final(self), old(self)@.check_next().0),
            old(self)@.check_next().1.is_result(result),
    {
        let peeked = if self.stack.len() == 0 {
            match self.peek_internal_optional()? {
                None => return Ok(false),
                Some(peeked) => peeked,
            }
        } else {
            self.peek_internal()?
        };
        Ok(peeked != PeekedValue::ArrayEnd && peeked != PeekedValue::ObjectEnd)
    }

    pub(super) fn read_bool(&mut self) -> (result: Result<bool, Stop>)
        requires
            old(self).scanner.wf(),
            old(self)@.can_peek(),
            !old(self)@.expects_member_name,
        ensures
            old(self).moved_to(*final(self), old(self)@.read_bool().0),
            old(self)@.read_bool().1.is_result(result),
    {
        proof {
            self@.lemma_start_value(ValueType::Boolean, false);
        }
        let peeked = self.start_expected_value_type(ValueType::Boolean, false)?;
        self.on_value_end();
        Ok(peeked == PeekedValue::BooleanTrue)
    }

    pub(super) fn read_null(&mut self) -> (result: Result<(), Stop>)
        requires
            old(self).scanner.wf(),
            old(self)@.can_peek(),
            !old(self)@.expects_member_name,
        ensures
            old(self).moved_to(*final(self), old(self)@.read_null().0),
            old(self)@.read_null().1.is_result(result),
    {
        proof {
            self@.lemma_start_value(ValueType::Null, false);
        }
        self.start_expected_value_type(ValueType::Null, false)?;
        self.on_value_end();
        Ok(())
    }

    // ---- Names and strings ----

    /// Whether an operation with the outcome returned a value from which the text can be obtained.
    pub(super) open spec fn offers(
        self,
        result: Result<BytesValue, Stop>,
        outcome: Outcome<Seq<char>>,
        requires_borrowed: bool,
    ) -> bool {
        match result {
            Ok(value) => {
                &&& self.scanner.provides(value)
                &&& valid_utf8(self.scanner.bytes_of(value))
                &&& outcome == Outcome::Ready(decode_utf8(self.scanner.bytes_of(value)))
                &&& requires_borrowed ==> !(value is Owned)
            },
            Err(stop) => stop.tells(outcome),
        }
    }

    /// Whether a string is read in order to borrow it or to own it makes no difference, except for
    /// where its bytes are: `borrowed` and `owned` are two readers which read it from the same
    /// state on, with their results. Both provide the same text, or both stopped for the same
    /// reason, and they end up in the same state. A value which is to be borrowed is never an owned
    /// one.
    pub(super) proof fn law_read_string_agrees(
        self,
        borrowed: (Self, Result<BytesValue, Stop>),
        owned: (Self, Result<BytesValue, Stop>),
    )
        requires
            self.moved_to(borrowed.0, self@.read_string(true).0),
            borrowed.0.offers(borrowed.1, self@.read_string(true).1, true),
            self.moved_to(owned.0, self@.read_string(true).0),
            owned.0.offers(owned.1, self@.read_string(true).1, false),
        ensures
            borrowed.0@ == owned.0@,
            match (borrowed.1, owned.1) {
                (Ok(value), Ok(other)) => {
                    &&& !(value is Owned)
                    &&& decode_utf8(borrowed.0.scanner.bytes_of(value)) == decode_utf8(
                        owned.0.scanner.bytes_of(other),
                    )
                },
                (Err(stop), Err(other)) => stop.is_like(other),
                _ => false,
            },
    {
    }

    /// Gets a completely read value as `str`.
    pub(super) fn get_str(&self, value: &BytesValue) -> (text: &str)
        requires
            self.scanner.provides(*value),
            !(value is Owned),
            valid_utf8(self.scanner.bytes_of(*value)),
        ensures
            text@ == decode_utf8(self.scanner.bytes_of(*value)),
    {
        self.scanner.get_str(value)
    }

    /// Gets a completely read value as `String`.
    pub(super) fn get_string(&self, value: BytesValue) -> (text: String)
        requires
            self.scanner.provides(value),
            valid_utf8(self.scanner.bytes_of(value)),
        ensures
            text@ == decode_utf8(self.scanner.bytes_of(value)),
    {
        self.scanner.get_string(value)
    }

    /// Starts reading a value; if `keep` is false its bytes are skipped.
    fn begin_reading(&mut self, activity: Activity, keep: bool)
        requires
            old(self).scanner.wf(),
            old(self)@.scan.value is None,
        ensures
            old(self).moved_to(*final(self), old(self)@.reading(activity@, keep)),
    {
        if keep {
            self.scanner.begin_value();
        }
        self.activity = activity;
    }

    fn before_name(&mut self) -> (result: Result<(), Stop>)
        requires
            old(self).scanner.wf(),
            old(self)@.can_peek(),
            old(self)@.expects_member_name,
        ensures
            old(self).moved_to(*final(self), old(self)@.before_name().0),
            old(self)@.before_name().1.is_result(result),
    {
        proof {
            self@.lemma_check_next();
        }
        if !self.check_next()? {
            return self.create_structure_error(UnexpectedStructureKind::FewerElementsThanExpected);
        }
        self.expects_member_name = false;
        // `check_next` call above peeked at start of member name; consume opening double quote here now
        self.scanner.advance(1);
        self.peeked = None;
        Ok(())
    }

    /// Consumes the closing double quote of a string, and ends reading it.
    fn close_string(&mut self, requires_borrowed: bool) -> (value: BytesValue)
        requires
            old(self).scanner.wf(),
            old(self)@.scan.pending.bytes.len() > 0,
            old(self)@.scan.has_valid_value(),
        ensures
            old(self).moved_to(*final(self), old(self)@.string_closed()),
            final(self).offers(
                Ok(value),
                Outcome::Ready(old(self)@.text()),
                requires_borrowed && old(self)@.scan.value is Some,
            ),
    {
        let value = if self.scanner.is_reading_value() {
            self.scanner.finish_string(requires_borrowed)
        } else {
            self.scanner.pass_ascii();
            self.scanner.empty_value()
        };
        self.activity = Activity::Idle;
        value
    }

    /// Sets the last piece of the JSON path.
    pub(super) fn set_member_name(&mut self, name: String)
        requires
            old(self).scanner.wf(),
            old(self)@.has_matching_path(),
            old(self)@.stack.len() > 0,
        ensures
            old(self).moved_to(*final(self), old(self)@.named(name@)),
            final(self).scanner == old(self).scanner,
    {
        let ghost text = name@;
        if let Some(path) = &mut self.json_path {
            let ghost pieces = PathPiece::all(path@);
            path.pop();
            path.push(JsonPathPiece::ObjectMember(name));
            assert(PathPiece::all(path@) =~= pieces.drop_last().push(PathPiece::Member(text)));
        }
    }

    /// Starts or continues reading a member name.
    ///
    /// The name is not recorded in the JSON path.
    pub(super) fn read_name(&mut self, keep: bool, requires_borrowed: bool) -> (result: Result<
        BytesValue,
        Stop,
    >)
        requires
            old(self).scanner.wf(),
            old(self)@.can_resume(),
            old(self)@.path is Some ==> keep,
            old(self)@.doing is Idle && old(self)@.expects_member_name || old(self)@.doing
                is ReadingName && (old(self)@.scan.value is Some <==> keep),
        ensures
            final(self).scanner.wf(),
            final(self).reader == old(self).reader,
            final(self).offers(result, old(self)@.read_name(keep).1, keep && requires_borrowed),
            match result {
                Ok(value) => final(self)@.named(decode_utf8(final(self).scanner.bytes_of(value)))
                    == old(self)@.read_name(keep).0,
                Err(_) => final(self)@ == old(self)@.read_name(keep).0,
            },
            result is Ok ==> final(self)@.has_matching_path() && final(self)@.stack.len() > 0,
            final(self)@.path is Some <==> old(self)@.path is Some,
    {
        match self.activity {
            Activity::ReadingName => {},
            _ => {
                proof {
                    self@.lemma_before_name();
                }
                self.before_name()?;
                self.begin_reading(Activity::ReadingName, keep);
            },
        }
        proof {
            self@.scan.lemma_read_string();
        }
        match self.scanner.read_string_chars() {
            StringEnd::Quote => Ok(self.close_string(requires_borrowed)),
            StringEnd::NeedsInput => Err(Stop::NeedsInput),
            StringEnd::Rejected(rejection) => self.reject(rejection),
        }
    }

    /// Starts or continues skipping a member name.
    pub(super) fn pass_name(&mut self) -> (result: Result<(), Stop>)
        requires
            old(self).scanner.wf(),
            old(self)@.can_resume(),
            old(self)@.doing is Idle && old(self)@.expects_member_name || old(self)@.doing
                is ReadingName,
        ensures
            old(self).moved_to(*final(self), old(self)@.pass_name().0),
            old(self)@.pass_name().1.is_result(result),
    {
        let keep = match self.activity {
            Activity::ReadingName => self.scanner.is_reading_value(),
            _ => self.json_path.is_some(),
        };
        let name_bytes = self.read_name(keep, false)?;
        if self.json_path.is_some() {
            let name = self.get_string(name_bytes);
            self.set_member_name(name);
        }
        Ok(())
    }

    /// Starts or continues reading a string value.
    pub(super) fn read_string(&mut self, keep: bool, requires_borrowed: bool) -> (result: Result<
        BytesValue,
        Stop,
    >)
        requires
            old(self).scanner.wf(),
            old(self)@.can_resume(),
            old(self)@.doing is Idle && !old(self)@.expects_member_name || old(self)@.doing
                is ReadingString && (old(self)@.scan.value is Some <==> keep),
        ensures
            old(self).moved_to(*final(self), old(self)@.read_string(keep).0),
            final(self).offers(result, old(self)@.read_string(keep).1, keep && requires_borrowed),
    {
        match self.activity {
            Activity::ReadingString => {},
            _ => {
                proof {
                    self@.lemma_start_value(ValueType::String, false);
                }
                self.start_expected_value_type(ValueType::String, false)?;
                self.begin_reading(Activity::ReadingString, keep);
            },
        }
        proof {
            self@.scan.lemma_read_string();
        }
        match self.scanner.read_string_chars() {
            StringEnd::Quote => {
                let value = self.close_string(requires_borrowed);
                self.on_value_end();
                Ok(value)
            },
            StringEnd::NeedsInput => Err(Stop::NeedsInput),
            StringEnd::Rejected(rejection) => self.reject(rejection),
        }
    }

    // ---- Numbers ----

    /// Consumes a number whose bytes were read completely.
    fn finish_number(&mut self, state: NumberState, requires_borrowed: bool) -> (result: Result<
        BytesValue,
        Stop,
    >)
        requires
            old(self).scanner.wf(),
            old(self)@.consistent(),
            old(self)@.scan.total() + state@.len <= u64::MAX,
        ensures
            old(self).moved_to(*final(self), old(self)@.number_read(state@).0),
            final(self).offers(
                result,
                old(self)@.number_read(state@).1,
                requires_borrowed && old(self)@.scan.value is Some,
            ),
    {
        let keep = self.scanner.is_reading_value();
        if keep && self.reader_settings.restrict_number_values && !state.supported() {
            let location = self.create_error_location();
            let value = self.scanner.finish_value(false);
            let number = self.get_string(value);
            return self.fail(ReaderError::UnsupportedNumberValue { number, location });
        }
        let value = if keep {
            self.scanner.finish_value(requires_borrowed)
        } else {
            self.scanner.empty_value()
        };
        self.scanner.advance(state.len);
        self.activity = Activity::Idle;
        // Make sure there are no misleading chars directly afterwards, e.g. "123f"
        if let Ahead::Byte(byte) = self.scanner.ahead(0) {
            if !crate::scanner::verify_value_separator(byte) {
                return self.create_syntax_value_error(SyntaxErrorKind::TrailingDataAfterNumber);
            }
        }
        self.on_value_end();
        Ok(value)
    }

    /// Starts or continues reading a number.
    pub(super) fn read_number_bytes(&mut self, keep: bool, requires_borrowed: bool) -> (result:
        Result<BytesValue, Stop>)
        requires
            old(self).scanner.wf(),
            old(self)@.can_resume(),
            old(self)@.doing is Idle && !old(self)@.expects_member_name || old(self)@.doing
                is ReadingNumber && (old(self)@.scan.value is Some <==> keep),
        ensures
            old(self).moved_to(*final(self), old(self)@.read_number(keep).0),
            final(self).offers(result, old(self)@.read_number(keep).1, keep && requires_borrowed),
    {
        let mut state = match self.activity {
            Activity::ReadingNumber(state) => state,
            _ => {
                proof {
                    self@.lemma_start_value(ValueType::Number, false);
                }
                self.start_expected_value_type(ValueType::Number, false)?;
                let state = NumberState::start();
                self.begin_reading(Activity::ReadingNumber(state), keep);
                state
            },
        };
        proof {
            self@.scan.lemma_read_number(state@);
        }
        let end = self.scanner.read_number_bytes(&mut state);
        self.activity = Activity::ReadingNumber(state);
        match end {
            NumberEnd::NeedsInput => Err(Stop::NeedsInput),
            NumberEnd::Malformed => self.create_syntax_value_error(
                SyntaxErrorKind::MalformedNumber,
            ),
            NumberEnd::Complete => self.finish_number(state, requires_borrowed),
        }
    }
}

} // verus!
