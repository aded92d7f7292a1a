//! Laws: skipping agrees with reading.

use vstd::prelude::*;

use super::documents::{Json, Member};
use crate::error::{Outcome, ValueType};
use crate::frame::Purpose;
use crate::lookahead::Ahead;
use crate::model::{Doing, Operation, ReaderModel};
use crate::number::{NumberProgress, NumberStep};
use crate::scan::ScanState;
use crate::token::{PeekedValue, StackValue};

verus! {

impl ScanState {
    /// Whether the bytes of a number are kept does not influence how it is read.
    pub proof fn lemma_number_value(self, progress: NumberProgress)
        ensures
            ({
                let (next, advanced, end) = self.read_number(progress);
                self.with_value(None).read_number(progress) == (
                    next.with_value(None),
                    advanced,
                    end,
                )
            }),
        decreases self.pending.bytes.len(),
    {
        if let Ahead::Byte(byte) = self.pending.ahead(0) {
            if let NumberStep::Consume(part) = progress.part.step(byte) {
                let next = self.with_bytes(seq![byte]).dropped(1);
                let none = self.with_value(None).with_bytes(seq![byte]).dropped(1);
                assert(none == next.with_value(None));
                next.lemma_number_value(progress.advanced(byte, part));
            }
        }
    }
}

impl ReaderModel {
    /// Skipping string characters and keeping them lead to the same place.
    pub proof fn lemma_string_skipped(self)
        requires
            self.can_peek(),
            !self.expects_member_name,
            self.read_string(true).1 is Ready,
        ensures
            self.read_string(false).1 is Ready,
            self.read_string(false).0 == self.read_string(true).0,
    {
        self.lemma_start_value(ValueType::String, false);
        let (next, _) = self.start_value(ValueType::String, false);
        let kept = next.reading(Doing::ReadingString, true);
        let skipped = next.reading(Doing::ReadingString, false);
        kept.scan.lemma_string_bytes();
        skipped.scan.lemma_string_bytes();
        assert(kept.scan.with_value(None) == skipped.scan.with_value(None));
        assert(skipped.scan.with_value(None) == skipped.scan);
        assert(self.read_string(true) == kept.continue_string());
        assert(self.read_string(false) == skipped.continue_string());
    }

    /// Skipping a number and keeping it lead to the same place.
    pub proof fn lemma_number_skipped(self)
        requires
            self.can_peek(),
            !self.expects_member_name,
            self.read_number(true).1 is Ready,
        ensures
            self.read_number(false).1 is Ready,
            self.read_number(false).0 == self.read_number(true).0,
    {
        self.lemma_start_value(ValueType::Number, false);
        let (next, _) = self.start_value(ValueType::Number, false);
        let progress = NumberProgress::start();
        let kept = next.reading(Doing::ReadingNumber(progress), true);
        let skipped = next.reading(Doing::ReadingNumber(progress), false);
        kept.scan.lemma_number_value(progress);
        assert(kept.scan.with_value(None) == skipped.scan);
        assert(self.read_number(true) == kept.continue_number(progress));
        assert(self.read_number(false) == skipped.continue_number(progress));
    }

    /// What was peeked at does not influence how a value is read.
    proof fn lemma_peeked_first(self)
        requires
            self.can_peek(),
            !self.expects_member_name,
            self.peek_value().1 is Ready,
        ensures
            ({
                let peeked = self.peek_value().0;
                &&& peeked.can_peek()
                &&& peeked.read_string(false) == self.read_string(false)
                &&& peeked.read_number(false) == self.read_number(false)
                &&& peeked.read_bool() == self.read_bool()
                &&& peeked.read_null() == self.read_null()
            }),
    {
        self.lemma_peek_internal();
        self.lemma_peek_value();
        let (next, outcome) = self.peek_internal();
        assert(next.peek_internal() == (next, outcome));
    }

    /// A value which is no array or object is skipped in a single step.
    proof fn lemma_skipped_at_once(self, value_type: ValueType)
        requires
            self.can_peek(),
            !self.expects_member_name,
            self.skip_base is None,
            self.transfer is None,
            self.peek_value().1 == Outcome::Ready(value_type),
            !(value_type is Array),
            !(value_type is Object),
            self.peek_value().0.skip_typed(value_type).1 is Ready,
        ensures
            self.pass_value() == self.peek_value().0.skip_typed(value_type),
    {
        let base = self.stack.len();
        let skipping = ReaderModel { skip_base: Some(base), ..self };
        self.lemma_peek_value();
        self.lemma_peek_value_skipping(base);
        let (peeked, _) = self.peek_value();
        let (marked, _) = skipping.peek_value();
        assert(marked == ReaderModel { skip_base: Some(base), ..peeked });
        assert(skipping.skip_step(base) == skipping.skip_item());
        assert(skipping.skip_item() == marked.skip_typed(value_type));
        peeked.lemma_skip_typed_skipping(value_type, base);
        peeked.lemma_skip_typed_ends(value_type);
    }

    /// That a value is being skipped does not influence peeking.
    proof fn lemma_peek_value_skipping(self, base: nat)
        requires
            self.can_peek(),
            !self.expects_member_name,
            self.peek_value().1 is Ready,
        ensures
            (ReaderModel { skip_base: Some(base), ..self }).peek_value() == (
                (ReaderModel { skip_base: Some(base), ..self.peek_value().0 }),
                self.peek_value().1,
            ),
    {
        let purpose = Purpose {
            skip_base: Some(base),
            transfer: self.transfer,
            ongoing: self.ongoing,
        };
        self.lemma_peek_value_indifferent(purpose);
        self.lemma_peek_value();
    }

    /// That a value is being skipped does not influence how it is read.
    proof fn lemma_skip_typed_skipping(self, value_type: ValueType, base: nat)
        requires
            self.can_peek(),
            self.peeked is Some,
            self.skip_typed(value_type).1 is Ready,
        ensures
            (ReaderModel { skip_base: Some(base), ..self }).skip_typed(value_type) == (
                (ReaderModel { skip_base: Some(base), ..self.skip_typed(value_type).0 }),
                self.skip_typed(value_type).1,
            ),
    {
    }

    /// A value which is no array or object leaves the nesting as it is.
    proof fn lemma_skip_typed_ends(self, value_type: ValueType)
        requires
            self.can_peek(),
            !self.expects_member_name,
            self.peeked is Some,
            !(value_type is Array),
            !(value_type is Object),
            self.skip_base is None,
            self.skip_typed(value_type).1 is Ready,
        ensures
            self.skip_typed(value_type).0.stack == self.stack,
            self.skip_typed(value_type).0.skip_base is None,
    {
        match value_type {
            ValueType::String => self.lemma_read_string(false),
            ValueType::Number => self.lemma_read_number(false),
            ValueType::Boolean => self.lemma_read_bool(),
            ValueType::Null => self.lemma_read_null(),
            _ => {},
        }
    }

    /// Skipping a string, number, boolean or null which can be read leads to the same
    /// state as reading it.
    pub proof fn law_skip_value_agrees(self)
        requires
            self.valid(),
            self.ongoing is None,
            self.misuse(Operation::SkipValue) is None,
        ensures
            self.next_string().1 is Ready ==> self.skip_value() == (
                self.next_string().0,
                Outcome::Ready(()),
            ),
            self.next_number().1 is Ready ==> self.skip_value() == (
                self.next_number().0,
                Outcome::Ready(()),
            ),
            self.next_bool().1 is Ready ==> self.skip_value() == (
                self.next_bool().0,
                Outcome::Ready(()),
            ),
            self.next_null().1 is Ready ==> self.skip_value() == (
                self.next_null().0,
                Outcome::Ready(()),
            ),
    {
        let m = self.picked_up();
        self.lemma_ready(Operation::SkipValue);
        m.lemma_peek_internal();
        m.lemma_peek_value();
        if m.peek_value().1 is Ready {
            m.lemma_peeked_first();
        }
        if self.next_string().1 is Ready {
            m.lemma_string_skipped();
            m.lemma_skipped_at_once(ValueType::String);
        }
        if self.next_number().1 is Ready {
            m.lemma_number_skipped();
            m.lemma_skipped_at_once(ValueType::Number);
        }
        if self.next_bool().1 is Ready {
            m.lemma_skipped_at_once(ValueType::Boolean);
        }
        if self.next_null().1 is Ready {
            m.lemma_skipped_at_once(ValueType::Null);
        }
    }

    /// Skipping a member name which can be read leads to the same state as reading it.
    pub proof fn law_skip_name_agrees(self)
        requires
            self.valid(),
            self.ongoing is None,
            self.misuse(Operation::SkipName) is None,
        ensures
            self.next_name().1 is Ready ==> self.skip_name() == (
                self.next_name().0,
                Outcome::Ready(()),
            ),
    {
        reveal(ReaderModel::next_name);
        let m = self.picked_up();
        self.lemma_ready(Operation::SkipName);
        m.lemma_before_name();
        let (next, outcome) = m.before_name();
        if outcome is Ready {
            let kept = next.reading(Doing::ReadingName, true);
            let skipped = next.reading(Doing::ReadingName, self.path is Some);
            kept.scan.lemma_string_bytes();
            skipped.scan.lemma_string_bytes();
            assert(kept.scan.with_value(None) == skipped.scan.with_value(None));
            assert(m.read_name(true) == kept.continue_name());
            assert(m.read_name(self.path is Some) == skipped.continue_name());
            if self.path is None {
                assert(skipped.scan.with_value(None) == skipped.scan);
            }
        }
    }
}

// ---- Whole values ----

impl ReaderModel {
    /// The same state while the value at a nesting depth is being skipped.
    pub open spec fn skipping(self, base: nat) -> ReaderModel {
        ReaderModel { skip_base: Some(base), ..self }
    }

    /// Whether there is no operation in progress.
    pub open spec fn is_free(self) -> bool {
        &&& self.can_peek()
        &&& self.skip_base is None
        &&& self.transfer is None
        &&& self.ongoing is None
    }

    /// How skipping the value at a nesting depth goes on behind an element.
    pub open spec fn skips_on(self, base: nat) -> (ReaderModel, Outcome<()>) {
        if self.stack.len() <= base {
            (self, Outcome::Ready(()))
        } else {
            self.skipping(base).skip_rest(base)
        }
    }

    /// Whether the reader is behind an element, in front of what follows it.
    pub open spec fn is_behind_element(self) -> bool {
        &&& self.is_free()
        &&& self.at_token()
        &&& !self.is_empty
        &&& self.expects_member_name == self.is_in_object()
    }

    /// Skipping goes on behind a step.
    pub proof fn lemma_skip_goes_on(self, base: nat, next: ReaderModel)
        requires
            self.skipping(base).can_skip(base),
            self.skipping(base).skip_step(base) == (next.skipping(base), Outcome::Ready(())),
            next.skip_base is None,
        ensures
            self.skipping(base).skip_rest(base) == next.skips_on(base),
    {
        self.skipping(base).lemma_skip_step(base);
        assert(ReaderModel { skip_base: None, ..next.skipping(base) } == next);
    }

    /// The start of a value is skipped while an enclosing value is being skipped.
    pub proof fn lemma_skip_value_step(self, base: nat, value_type: ValueType)
        requires
            self.is_free(),
            !self.expects_member_name,
            base <= self.stack.len(),
            self.stack.len() > base && !self.expects_member_value() ==> self.peeked is Some,
            self.peek_value().1 == Outcome::Ready(value_type),
            self.peek_value().0.skip_typed(value_type).1 is Ready,
        ensures
            self.skipping(base).can_skip(base),
            self.skipping(base).skip_step(base) == (
                self.peek_value().0.skip_typed(value_type).0.skipping(base),
                Outcome::Ready(()),
            ),
    {
        self.lemma_peek_value();
        self.lemma_peek_value_skipping(base);
        let (peeked, _) = self.peek_value();
        let skipping = self.skipping(base);
        peeked.lemma_skip_typed_skipping(value_type, base);
        assert(skipping.skip_item() == peeked.skipping(base).skip_typed(value_type));
        if self.stack.len() > base && !self.expects_member_value() {
            assert(skipping.check_next() == (skipping, Outcome::Ready(true)));
        }
    }

    /// A value which is no array or object is skipped as it is read.
    proof fn lemma_skip_simple_as_read(self, base: nat, fuel: nat)
        requires
            self.is_free(),
            !self.expects_member_name,
            base <= self.stack.len(),
            self.stack.len() > base && !self.expects_member_value() ==> self.peeked is Some,
            self.read_json(fuel).1 is Ready,
            !(self.peek_value().1->Ready_0 is Array),
            !(self.peek_value().1->Ready_0 is Object),
        ensures
            self.skipping(base).skip_rest(base) == self.read_json(fuel).0.skips_on(base),
            self.read_json(fuel).0.is_behind_element(),
            self.read_json(fuel).0.stack == self.stack,
    {
        assert(self.picked_up() == self);
        self.lemma_peek_value();
        let (peeked, outcome) = self.peek_value();
        let value_type = outcome->Ready_0;
        assert(self.peek() == (peeked, outcome));
        assert(peeked.picked_up() == peeked);
        match value_type {
            ValueType::String => {
                peeked.lemma_string_skipped();
                peeked.lemma_read_string(true);
            },
            ValueType::Number => {
                peeked.lemma_number_skipped();
                peeked.lemma_read_number(true);
            },
            ValueType::Boolean => peeked.lemma_read_bool(),
            _ => peeked.lemma_read_null(),
        }
        let next = self.read_json(fuel).0;
        assert(peeked.skip_typed(value_type) == (next, Outcome::Ready(())));
        self.lemma_skip_value_step(base, value_type);
        self.lemma_skip_goes_on(base, next);
    }

    /// A value is skipped as it is read.
    pub proof fn lemma_skip_as_read(self, base: nat, fuel: nat)
        requires
            self.is_free(),
            !self.expects_member_name,
            base <= self.stack.len(),
            self.stack.len() > base && !self.expects_member_value() ==> self.peeked is Some,
            self.read_json(fuel).1 is Ready,
        ensures
            self.skipping(base).skip_rest(base) == self.read_json(fuel).0.skips_on(base),
            self.read_json(fuel).0.is_behind_element(),
            self.read_json(fuel).0.stack == self.stack,
        decreases fuel,
    {
        let value_type = self.peek_value().1->Ready_0;
        if self.peek_value().1 is Ready && value_type is Array {
            let inside = self.lemma_skip_enter(base, StackValue::Array, fuel);
            inside.lemma_skip_items_as_read(base, Seq::empty(), (fuel - 1) as nat);
            assert(inside.stack.drop_last() =~= self.stack);
        } else if self.peek_value().1 is Ready && value_type is Object {
            let inside = self.lemma_skip_enter(base, StackValue::Object, fuel);
            inside.lemma_skip_members_as_read(base, Seq::empty(), (fuel - 1) as nat);
            assert(inside.stack.drop_last() =~= self.stack);
        } else {
            self.lemma_skip_simple_as_read(base, fuel);
        }
    }

    /// The start of an array or object is skipped as it is read.
    proof fn lemma_skip_enter(self, base: nat, container: StackValue, fuel: nat) -> (inside:
        ReaderModel)
        requires
            self.is_free(),
            !self.expects_member_name,
            base <= self.stack.len(),
            self.stack.len() > base && !self.expects_member_value() ==> self.peeked is Some,
            self.read_json(fuel).1 is Ready,
            self.peek_value().1 == Outcome::Ready(
                match container {
                    StackValue::Array => ValueType::Array,
                    StackValue::Object => ValueType::Object,
                },
            ),
        ensures
            inside.is_free(),
            inside.stack == self.stack.push(container),
            inside.expects_member_name == (container is Object),
            self.skipping(base).skip_rest(base) == inside.skipping(base).skip_rest(base),
            fuel > 0,
            self.read_json(fuel) == match container {
                StackValue::Array => inside.read_json_items(Seq::empty(), (fuel - 1) as nat),
                StackValue::Object => inside.read_json_members(Seq::empty(), (fuel - 1) as nat),
            },
    {
        assert(self.picked_up() == self);
        self.lemma_peek_value();
        let (peeked, outcome) = self.peek_value();
        assert(self.peek() == (peeked, outcome));
        assert(peeked.picked_up() == peeked);
        peeked.lemma_begin_container(container);
        let inside = peeked.begin_container(container).0;
        match container {
            StackValue::Array => assert(peeked.begin_array().0 == inside),
            StackValue::Object => assert(peeked.begin_object().0 == inside),
        }
        self.lemma_skip_value_step(base, outcome->Ready_0);
        self.lemma_skip_goes_on(base, inside);
        inside
    }

    /// What is next in an array or object is determined while it is being skipped.
    pub proof fn lemma_skip_check(self, base: nat)
        requires
            self.is_free(),
            self.stack.len() > base,
            !self.expects_member_value(),
            self.has_next().1 is Ready,
        ensures
            ({
                let next = self.has_next().0;
                &&& next.is_free()
                &&& self.same_but_token(next)
                &&& next.peeked is Some
                &&& self.has_next().1 == Outcome::Ready(!next.peeked->0.is_end())
                &&& self.skipping(base).can_skip(base)
                &&& next.skipping(base).can_skip(base)
                &&& self.skipping(base).skip_step(base) == next.skipping(base).skip_step(base)
                &&& self.skipping(base).skip_rest(base) == next.skipping(base).skip_rest(base)
            }),
    {
        reveal(ReaderModel::has_next);
        assert(self.picked_up() == self);
        self.lemma_check_next();
        let purpose = Purpose { skip_base: Some(base), transfer: None, ongoing: None };
        self.lemma_peek_internal_indifferent(purpose);
        let next = self.has_next().0;
        assert(self.with_purpose(purpose) == self.skipping(base));
        assert(next.with_purpose(purpose) == next.skipping(base));
        self.skipping(base).lemma_skip_step(base);
        next.skipping(base).lemma_skip_step(base);
    }

    /// The end of an array or object is skipped as it is read.
    pub proof fn lemma_skip_end_as_read(self, base: nat, container: StackValue)
        requires
            self.is_free(),
            self.stack.len() > base,
            self.stack.last() == container,
            self.expects_member_name == (container is Object),
            self.has_next().1 == Outcome::Ready(false),
            self.has_next().0.end_container(container).1 is Ready,
        ensures
            ({
                let behind = self.has_next().0.end_container(container).0;
                &&& self.skipping(base).skip_rest(base) == behind.skips_on(base)
                &&& behind.is_behind_element()
                &&& behind.stack == self.stack.drop_last()
            }),
    {
        self.lemma_skip_check(base);
        let next = self.has_next().0;
        next.lemma_end_container(container);
        let behind = next.end_container(container).0;
        assert(next.skipping(base).end_container(container) == (
            behind.skipping(base),
            Outcome::Ready(()),
        ));
        assert(next.skipping(base).skip_step(base) == (behind.skipping(base), Outcome::Ready(())));
        next.lemma_skip_goes_on(base, behind);
    }

    /// The items of an array are skipped as they are read.
    proof fn lemma_skip_items_as_read(self, base: nat, items: Seq<Json>, fuel: nat)
        requires
            self.is_free(),
            self.stack.len() > base,
            self.is_in_array(),
            !self.expects_member_name,
            self.read_json_items(items, fuel).1 is Ready,
        ensures
            self.skipping(base).skip_rest(base) == self.read_json_items(items, fuel).0.skips_on(
                base,
            ),
            self.read_json_items(items, fuel).0.is_behind_element(),
            self.read_json_items(items, fuel).0.stack == self.stack.drop_last(),
        decreases fuel,
    {
        self.lemma_skip_check(base);
        let (next, outcome) = self.has_next();
        assert(next.picked_up() == next);
        if outcome == Outcome::Ready(true) {
            let rest_fuel = (fuel - 1) as nat;
            let (behind, read) = next.read_json(rest_fuel);
            next.lemma_skip_as_read(base, rest_fuel);
            behind.lemma_skip_items_as_read(base, items.push(read->Ready_0), rest_fuel);
        } else {
            self.lemma_skip_end_as_read(base, StackValue::Array);
            let behind = next.end_container(StackValue::Array).0;
            assert(next.end_array().0 == behind);
        }
    }

    /// A member name which was peeked at is skipped as it is read.
    pub proof fn lemma_skip_member_name_as_read(self, base: nat)
        requires
            self.is_free(),
            self.stack.len() > base,
            self.expects_member_name,
            self.peeked == Some(PeekedValue::NameStart),
            self.next_name().1 is Ready,
        ensures
            ({
                let named = self.next_name().0;
                &&& self.skipping(base).skip_rest(base) == named.skipping(base).skip_rest(base)
                &&& named.is_free()
                &&& named.expects_member_value()
                &&& named.stack == self.stack
            }),
    {
        let named = self.next_name().0;
        assert(self.picked_up() == self);
        self.law_skip_name_agrees();
        self.lemma_pass_name();
        assert(self.pass_name() == (named, Outcome::Ready(())));
        let skipping = self.skipping(base);
        assert(skipping.check_next() == (skipping, Outcome::Ready(true)));
        assert(self.check_next() == (self, Outcome::Ready(true)));
        assert(skipping.pass_name() == (named.skipping(base), Outcome::Ready(())));
        self.lemma_skip_goes_on(base, named);
    }

    /// The members of an object are skipped as they are read.
    proof fn lemma_skip_members_as_read(self, base: nat, members: Seq<Member>, fuel: nat)
        requires
            self.is_free(),
            self.stack.len() > base,
            self.is_in_object(),
            self.expects_member_name,
            self.read_json_members(members, fuel).1 is Ready,
        ensures
            self.skipping(base).skip_rest(base) == self.read_json_members(members, fuel).0.skips_on(
                base,
            ),
            self.read_json_members(members, fuel).0.is_behind_element(),
            self.read_json_members(members, fuel).0.stack == self.stack.drop_last(),
        decreases fuel,
    {
        self.lemma_skip_check(base);
        let (next, outcome) = self.has_next();
        assert(next.picked_up() == next);
        if outcome == Outcome::Ready(true) {
            let rest_fuel = (fuel - 1) as nat;
            let (named, named_outcome) = next.next_name();
            next.lemma_skip_member_name_as_read(base);
            let (behind, read) = named.read_json(rest_fuel);
            named.lemma_skip_as_read(base, rest_fuel);
            let member = Member { name: named_outcome->Ready_0, value: read->Ready_0 };
            behind.lemma_skip_members_as_read(base, members.push(member), rest_fuel);
        } else {
            self.lemma_skip_end_as_read(base, StackValue::Object);
            let behind = next.end_container(StackValue::Object).0;
            assert(next.end_object().0 == behind);
        }
    }

    /// Skipping a value leads to the same state as reading all of it, whatever it consists of, if
    /// it can be read.
    pub proof fn law_skip_agrees_with_reading(self, fuel: nat)
        requires
            self.valid(),
            self.ongoing is None,
            self.misuse(Operation::SkipValue) is None,
            self.read_json(fuel).1 is Ready,
        ensures
            self.skip_value() == (self.read_json(fuel).0, Outcome::Ready(())),
    {
        self.lemma_ready(Operation::SkipValue);
        assert(self.picked_up() == self);
        self.lemma_skip_as_read(self.stack.len(), fuel);
    }
}

} // verus!
