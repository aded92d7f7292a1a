//! Laws: skipping to the top-level.

use vstd::prelude::*;

use super::documents::{Json, Member};
use crate::ascii;
use crate::error::Outcome;
use crate::model::{Operation, ReaderModel};
use crate::settings::ReaderSettings;
use crate::token::StackValue;

verus! {

// ---- What remains of arrays and objects ----

impl StackValue {
    pub open spec fn closing_bracket(self) -> u8 {
        match self {
            StackValue::Array => ascii::CLOSE_BRACKET,
            StackValue::Object => ascii::CLOSE_BRACE,
        }
    }
}

/// Whether the text up to the end of an array represents its remaining items; if it is not empty,
/// there is another item in front of them, whatever that is.
pub open spec fn is_remaining_items(
    text: Seq<u8>,
    items: Seq<Json>,
    is_empty: bool,
    settings: ReaderSettings,
) -> bool {
    if is_empty {
        super::documents::is_items_text(text, items, settings)
    } else {
        super::documents::is_more_items_text(text, seq![Json::Null] + items, 1, settings)
    }
}

pub open spec fn unknown_member() -> Member {
    Member { name: Seq::empty(), value: Json::Null }
}

/// As [`is_remaining_items`], for the members of an object.
pub open spec fn is_remaining_members(
    text: Seq<u8>,
    members: Seq<Member>,
    is_empty: bool,
    settings: ReaderSettings,
) -> bool {
    if is_empty {
        super::documents::is_members_text(text, members, settings)
    } else {
        super::documents::is_more_members_text(text, seq![unknown_member()] + members, 1, settings)
    }
}

/// Whether the text may remain up to the end of an array or object at the nesting depth.
pub open spec fn is_remaining_content(
    text: Seq<u8>,
    container: StackValue,
    is_empty: bool,
    settings: ReaderSettings,
    depth: nat,
) -> bool {
    match container {
        StackValue::Array => exists|items: Seq<Json>| #[trigger]
            is_remaining_items(text, items, is_empty, settings) && forall|i: int|
                0 <= i < items.len() ==> (#[trigger] items[i]).is_allowed(settings, depth),
        StackValue::Object => exists|members: Seq<Member>| #[trigger]
            is_remaining_members(text, members, is_empty, settings) && forall|i: int|
                0 <= i < members.len() ==> (#[trigger] members[i]).value.is_allowed(
                    settings,
                    depth,
                ),
    }
}

/// Whether the text may remain of started arrays and objects, up to the end of the outermost one.
pub open spec fn is_remainder(
    text: Seq<u8>,
    stack: Seq<StackValue>,
    is_empty: bool,
    settings: ReaderSettings,
) -> bool
    decreases stack.len(),
{
    if stack.len() == 0 {
        text.len() == 0
    } else {
        exists|end: int|
            0 <= end < text.len() && is_remaining_content(
                #[trigger] text.take(end),
                stack.last(),
                is_empty,
                settings,
                stack.len(),
            ) && text[end] == stack.last().closing_bracket() && is_remainder(
                text.skip(end + 1),
                stack.drop_last(),
                false,
                settings,
            )
    }
}

/// As [`is_remainder`], directly behind the name of a member.
pub open spec fn is_remainder_behind_name(
    text: Seq<u8>,
    stack: Seq<StackValue>,
    settings: ReaderSettings,
) -> bool {
    exists|colon: int, start: int|
        0 <= colon < start <= text.len() && #[trigger] super::documents::is_separated_until(
            text,
            ascii::COLON,
            colon,
            start,
            settings,
        ) && exists|end: int, value: Json|
            start <= end <= text.len() && #[trigger] super::documents::is_value_text(
                text.subrange(start, end),
                value,
                settings,
            ) && value.is_allowed(settings, stack.len()) && is_remainder(
                text.skip(end),
                stack,
                false,
                settings,
            )
}

/// Behind an element there is something which separates values.
proof fn lemma_remainder_start(text: Seq<u8>, stack: Seq<StackValue>, settings: ReaderSettings)
    requires
        is_remainder(text, stack, false, settings),
        stack.len() > 0,
    ensures
        text.len() > 0,
        ascii::is_separator(text[0]),
{
    let end = choose|end: int|
        0 <= end < text.len() && is_remaining_content(
            #[trigger] text.take(end),
            stack.last(),
            false,
            settings,
            stack.len(),
        ) && text[end] == stack.last().closing_bracket() && is_remainder(
            text.skip(end + 1),
            stack.drop_last(),
            false,
            settings,
        );
    let content = text.take(end);
    if end > 0 {
        assert(content[0] == text[0]);
        match stack.last() {
            StackValue::Array => {
                let items = choose|items: Seq<Json>| #[trigger]
                    is_remaining_items(content, items, false, settings);
                super::documents::lemma_behind_item(
                    content,
                    seq![Json::Null] + items,
                    1,
                    settings,
                );
            },
            StackValue::Object => {
                let members = choose|members: Seq<Member>| #[trigger]
                    is_remaining_members(content, members, false, settings);
                super::documents::lemma_behind_member(
                    content,
                    seq![unknown_member()] + members,
                    1,
                    settings,
                );
            },
        }
    }
}

// ---- Skipping as it is read ----

impl ReaderModel {
    /// What skipping to the top-level leads to.
    #[verifier::opaque]
    pub open spec fn passed(self) -> (ReaderModel, Outcome<()>) {
        self.pass_to_top_level()
    }

    /// Nothing is passed at the top-level.
    proof fn lemma_passed_at_top_level(self)
        requires
            self.at_rest(),
            self.stack.len() == 0,
        ensures
            self.passed() == (self, Outcome::Ready(())),
    {
        reveal(ReaderModel::passed);
    }

    /// Skipping to the top-level goes on behind a step.
    proof fn lemma_pass_goes_on(self, next: ReaderModel)
        requires
            self.is_free(),
            self.stack.len() > 0,
            self.top_level_step() == (next, Outcome::Ready(false)),
        ensures
            self.passed() == next.passed(),
    {
        reveal(ReaderModel::passed);
        self.lemma_top_level_step();
    }

    /// A value is passed as it is read.
    proof fn lemma_pass_value_as_read(self, fuel: nat)
        requires
            self.is_free(),
            !self.expects_member_name,
            self.read_json(fuel).1 is Ready,
        ensures
            self.pass_value() == (self.read_json(fuel).0, Outcome::Ready(())),
            self.read_json(fuel).0.is_behind_element(),
            self.read_json(fuel).0.stack == self.stack,
    {
        self.lemma_skip_as_read(self.stack.len(), fuel);
    }

    /// The end of an array or object is passed as it is read.
    proof fn lemma_pass_end_as_read(self)
        requires
            self.is_free(),
            self.stack.len() > 0,
            !self.expects_member_value(),
            self.has_next().1 == Outcome::Ready(false),
            self.has_next().0.end_container(self.stack.last()).1 is Ready,
        ensures
            self.passed() == self.has_next().0.end_container(
                self.stack.last(),
            ).0.passed(),
    {
        self.lemma_skip_check(0);
        assert(self.has_next() == self.check_next()) by {
            reveal(ReaderModel::has_next);
            assert(self.picked_up() == self);
            self.lemma_check_next();
        }
        let next = self.has_next().0;
        let behind = next.end_container(self.stack.last()).0;
        self.lemma_pass_goes_on(behind);
    }

    /// The items of an array are passed as they are read.
    proof fn lemma_pass_items_as_read(self, items: Seq<Json>, fuel: nat)
        requires
            self.is_free(),
            self.is_in_array(),
            !self.expects_member_name,
            self.read_json_items(items, fuel).1 is Ready,
        ensures
            self.passed() == self.read_json_items(items, fuel).0.passed(),
        decreases fuel,
    {
        self.lemma_skip_check(0);
        assert(self.has_next() == self.check_next()) by {
            reveal(ReaderModel::has_next);
            assert(self.picked_up() == self);
            self.lemma_check_next();
        }
        let (next, outcome) = self.has_next();
        assert(next.picked_up() == next);
        if outcome == Outcome::Ready(true) {
            let rest_fuel = (fuel - 1) as nat;
            let (behind, read) = next.read_json(rest_fuel);
            next.lemma_pass_value_as_read(rest_fuel);
            self.lemma_pass_goes_on(behind);
            behind.lemma_pass_items_as_read(items.push(read->Ready_0), rest_fuel);
        } else {
            next.lemma_end_container(StackValue::Array);
            let behind = next.end_container(StackValue::Array).0;
            assert(next.end_array().0 == behind);
            self.lemma_pass_end_as_read();
        }
    }

    /// The members of an object are passed as they are read.
    proof fn lemma_pass_members_as_read(self, members: Seq<Member>, fuel: nat)
        requires
            self.is_free(),
            self.is_in_object(),
            self.expects_member_name,
            self.read_json_members(members, fuel).1 is Ready,
        ensures
            self.passed() == self.read_json_members(members, fuel).0.passed(),
        decreases fuel,
    {
        self.lemma_skip_check(0);
        assert(self.has_next() == self.check_next()) by {
            reveal(ReaderModel::has_next);
            assert(self.picked_up() == self);
            self.lemma_check_next();
        }
        let (next, outcome) = self.has_next();
        assert(next.picked_up() == next);
        if outcome == Outcome::Ready(true) {
            let rest_fuel = (fuel - 1) as nat;
            let (named, named_outcome) = next.next_name();
            next.lemma_pass_name_as_read();
            self.lemma_pass_goes_on(named);
            let (behind, read) = named.read_json(rest_fuel);
            named.lemma_pass_value_as_read(rest_fuel);
            named.lemma_pass_goes_on(behind);
            let member = Member { name: named_outcome->Ready_0, value: read->Ready_0 };
            behind.lemma_pass_members_as_read(members.push(member), rest_fuel);
        } else {
            next.lemma_end_container(StackValue::Object);
            let behind = next.end_container(StackValue::Object).0;
            assert(next.end_object().0 == behind);
            self.lemma_pass_end_as_read();
        }
    }

    /// A member name which was peeked at is passed as it is read.
    proof fn lemma_pass_name_as_read(self)
        requires
            self.is_free(),
            self.expects_member_name,
            self.peeked is Some,
            !self.peeked->0.is_end(),
            self.next_name().1 is Ready,
        ensures
            self.pass_name() == (self.next_name().0, Outcome::Ready(())),
            self.next_name().0.is_free(),
            self.next_name().0.expects_member_value(),
            self.next_name().0.stack == self.stack,
    {
        assert(self.picked_up() == self);
        self.law_skip_name_agrees();
        self.lemma_pass_name();
        self.lemma_skip_member_name_as_read(0);
    }

    /// What remains of an array or object is passed.
    ///
    /// Returns the state behind it.
    proof fn lemma_pass_content(self, text: Seq<u8>) -> (behind: ReaderModel)
        requires
            self.is_waiting(),
            self.stack.len() > 0,
            self.is_inside(self.stack.last(), text),
            is_remaining_content(
                text,
                self.stack.last(),
                self.is_empty,
                self.settings,
                self.stack.len(),
            ),
        ensures
            self.passed() == behind.passed(),
            self.leaves_to(behind, text.len() as int + 1),
    {
        let from: int = if self.is_empty {
            0
        } else {
            1
        };
        match self.stack.last() {
            StackValue::Array => {
                let items = choose|items: Seq<Json>| #[trigger]
                    is_remaining_items(text, items, self.is_empty, self.settings) && forall|i: int|
                        0 <= i < items.len() ==> (#[trigger] items[i]).is_allowed(
                            self.settings,
                            self.stack.len(),
                        );
                let all = if self.is_empty {
                    items
                } else {
                    seq![Json::Null] + items
                };
                let fuel = Json::items_fuel(all, from);
                self.lemma_read_json_items(text, all, from, fuel);
                self.lemma_pass_items_as_read(all.take(from), fuel);
                self.read_json_items(all.take(from), fuel).0
            },
            StackValue::Object => {
                let members = choose|members: Seq<Member>| #[trigger]
                    is_remaining_members(text, members, self.is_empty, self.settings) && forall|
                        i: int,
                    |
                        0 <= i < members.len() ==> (#[trigger] members[i]).value.is_allowed(
                            self.settings,
                            self.stack.len(),
                        );
                let all = if self.is_empty {
                    members
                } else {
                    seq![unknown_member()] + members
                };
                let fuel = Json::members_fuel(all, from);
                self.lemma_read_json_members(text, all, from, fuel);
                self.lemma_pass_members_as_read(all.take(from), fuel);
                self.read_json_members(all.take(from), fuel).0
            },
        }
    }

    /// Whether skipping to the top-level succeeds and consumes the given number of bytes.
    pub open spec fn is_passed(self, len: int) -> bool {
        let (next, outcome) = self.passed();
        &&& outcome == Outcome::Ready(())
        &&& next.stack.len() == 0
        &&& next.scan.pending == self.scan.pending.after(len)
        &&& next.peeked is None
        &&& next.at_rest()
    }

    /// What remains of the started arrays and objects is passed.
    proof fn lemma_pass_remainder(self, text: Seq<u8>)
        requires
            self.is_waiting(),
            self.expects_member_name == self.is_in_object(),
            text.len() <= self.scan.pending.bytes.len(),
            self.scan.pending.bytes.take(text.len() as int) == text,
            is_remainder(text, self.stack, self.is_empty, self.settings),
        ensures
            self.is_passed(text.len() as int),
        decreases self.stack.len(),
    {
        let bytes = self.scan.pending.bytes;
        if self.stack.len() == 0 {
            assert(bytes.skip(0) =~= bytes);
            self.lemma_passed_at_top_level();
        } else {
            let end = choose|end: int|
                0 <= end < text.len() && is_remaining_content(
                    #[trigger] text.take(end),
                    self.stack.last(),
                    self.is_empty,
                    self.settings,
                    self.stack.len(),
                ) && text[end] == self.stack.last().closing_bracket() && is_remainder(
                    text.skip(end + 1),
                    self.stack.drop_last(),
                    false,
                    self.settings,
                );
            assert(bytes.take(text.len() as int)[end] == bytes[end]);
            assert(bytes.take(end) =~= text.take(end));
            let behind = self.lemma_pass_content(text.take(end));
            let rest = text.skip(end + 1);
            assert(behind.scan.pending.bytes.take(rest.len() as int) =~= rest);
            behind.lemma_pass_remainder(rest);
            assert(bytes.skip(end + 1).skip(rest.len() as int) =~= bytes.skip(text.len() as int));
        }
    }

    /// What remains of the started arrays and objects behind a member name is passed.
    proof fn lemma_pass_remainder_behind_name(self, text: Seq<u8>)
        requires
            self.is_waiting(),
            self.expects_member_value(),
            text.len() <= self.scan.pending.bytes.len(),
            self.scan.pending.bytes.take(text.len() as int) == text,
            is_remainder_behind_name(text, self.stack, self.settings),
        ensures
            self.is_passed(text.len() as int),
    {
        let settings = self.settings;
        let bytes = self.scan.pending.bytes;
        let (colon, start) = choose|colon: int, start: int|
            0 <= colon < start <= text.len() && #[trigger] super::documents::is_separated_until(
                text,
                ascii::COLON,
                colon,
                start,
                settings,
            ) && exists|end: int, value: Json|
                start <= end <= text.len() && #[trigger] super::documents::is_value_text(
                    text.subrange(start, end),
                    value,
                    settings,
                ) && value.is_allowed(settings, self.stack.len()) && is_remainder(
                    text.skip(end),
                    self.stack,
                    false,
                    settings,
                );
        let (end, value) = choose|end: int, value: Json|
            start <= end <= text.len() && #[trigger] super::documents::is_value_text(
                text.subrange(start, end),
                value,
                settings,
            ) && value.is_allowed(settings, self.stack.len()) && is_remainder(
                text.skip(end),
                self.stack,
                false,
                settings,
            );
        let rest = text.skip(end);
        lemma_remainder_start(rest, self.stack, settings);
        assert(bytes.take(text.len() as int)[end] == bytes[end]);
        assert(self.scan.pending.is_delimited(end));
        assert(text.take(end).take(colon) =~= text.take(colon));
        assert(text.take(end).subrange(colon + 1, start) =~= text.subrange(colon + 1, start));
        self.lemma_member_value(text, colon, start, end, value);
        let at_value = self.peek_internal().0;
        let value_text = text.subrange(start, end);
        let fuel = value.fuel();
        at_value.lemma_read_json(value_text, value, fuel);
        self.lemma_read_peeked(at_value, fuel, value_text, value);
        let behind = self.read_json(fuel).0;
        self.lemma_pass_value_as_read(fuel);
        self.lemma_pass_goes_on(behind);
        assert(behind.scan.pending.bytes.take(rest.len() as int) =~= rest);
        behind.lemma_pass_remainder(rest);
        assert(bytes.skip(end).skip(rest.len() as int) =~= bytes.skip(text.len() as int));
    }

    /// Skipping to the top-level succeeds if what remains of the started arrays and objects is
    /// well-formed and not nested too deeply, and ends directly behind the outermost of them.
    /// Numbers are not restricted. The state is one in which nothing has been peeked at; peeking
    /// makes no difference, see [`law_peek_is_harmless`](Self::law_peek_is_harmless) and
    /// [`law_has_next_is_harmless`](Self::law_has_next_is_harmless).
    pub proof fn law_skip_to_top_level_succeeds(self, text: Seq<u8>)
        requires
            self.valid(),
            self.ongoing is None,
            self.misuse(Operation::SkipToTopLevel) is None,
            self.peeked is None,
            self.stack.len() > 0,
            text.len() <= self.scan.pending.bytes.len(),
            self.scan.pending.bytes.take(text.len() as int) == text,
            ({
                let settings = self.unrestricted().settings;
                if self.expects_member_value() {
                    is_remainder_behind_name(text, self.stack, settings)
                } else {
                    is_remainder(text, self.stack, self.is_empty, settings)
                }
            }),
        ensures
            ({
                let (next, outcome) = self.skip_to_top_level();
                &&& outcome == Outcome::Ready(())
                &&& next.stack.len() == 0
                &&& next.scan.pending == self.scan.pending.after(text.len() as int)
                &&& next.scan.spot.byte_pos == self.scan.spot.byte_pos + text.len()
                &&& next.peeked is None
                &&& next.at_rest()
            }),
    {
        self.lemma_ready(Operation::SkipToTopLevel);
        self.lemma_skip_to_top_level();
        self.law_skipping_ignores_restriction();
        let reader = self.unrestricted();
        assert(reader.skip_to_top_level() == ReaderModel::concluded(
            Operation::SkipToTopLevel,
            reader.passed(),
        )) by {
            reveal(ReaderModel::passed);
            assert(reader.picked_up() == reader);
        }
        if self.expects_member_value() {
            reader.lemma_pass_remainder_behind_name(text);
        } else {
            reader.lemma_pass_remainder(text);
        }
    }

    /// Skipping to the top-level has no effect if no array or object is open. In particular it has
    /// none the second time.
    pub proof fn law_skip_to_top_level_is_idempotent(self)
        requires
            self.valid(),
            self.misuse(Operation::SkipToTopLevel) is None,
        ensures
            self.stack.len() == 0 && self.ongoing is None ==> self.skip_to_top_level() == (
                self,
                Outcome::Ready(()),
            ),
            self.skip_to_top_level().1 is Ready ==> self.skip_to_top_level().0.skip_to_top_level()
                == self.skip_to_top_level(),
    {
        self.lemma_ready(Operation::SkipToTopLevel);
        self.law_skip_to_top_level_leaves_all();
        self.lemma_skip_to_top_level();
        if self.stack.len() == 0 && self.ongoing is None {
            self.lemma_nothing_to_skip();
        }
        let (next, outcome) = self.skip_to_top_level();
        if outcome is Ready {
            next.lemma_nothing_to_skip();
            assert(outcome->Ready_0 == ());
            assert(self.skip_to_top_level() == (next, outcome));
        }
    }

    proof fn lemma_nothing_to_skip(self)
        requires
            self.at_rest(),
            self.ongoing is None,
            self.stack.len() == 0,
        ensures
            self.skip_to_top_level() == (self, Outcome::Ready(())),
    {
        assert(self.picked_up() == self);
    }
}

} // verus!
