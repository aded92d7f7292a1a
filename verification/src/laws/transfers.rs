//! Laws: what is transferred to a writer is the value which would be read.

use vstd::prelude::*;
use vstd::utf8::*;

use super::documents::{Json, Member};
use crate::error::{Outcome, ValueType};
use crate::frame::Purpose;
use crate::model::{Doing, Operation, ReaderModel, TransferProgress};
use crate::scan::{ScanState, StringEnd};
use crate::token::{PeekedValue, StackValue};
use crate::traversal::Transferred;

verus! {

/// A part of a JSON value, in the order in which it is written.
pub enum Event {
    BeginArray,
    EndArray,
    BeginObject,
    EndObject,
    Name(Seq<char>),
    String(Seq<char>),
    Number(Seq<char>),
    Bool(bool),
    Null,
}

impl Json {
    /// The parts of the value, in the order in which they are written.
    pub open spec fn events(self) -> Seq<Event>
        decreases self, 1int, 0int,
    {
        match self {
            Json::Null => seq![Event::Null],
            Json::Bool(value) => seq![Event::Bool(value)],
            Json::Number(number) => seq![Event::Number(number)],
            Json::String(chars) => seq![Event::String(chars)],
            Json::Array(items) => seq![Event::BeginArray] + Json::items_events(items, 0)
                + seq![Event::EndArray],
            Json::Object(members) => seq![Event::BeginObject] + Json::members_events(members, 0)
                + seq![Event::EndObject],
        }
    }

    /// The parts of the items from an index on.
    pub open spec fn items_events(items: Seq<Json>, from: int) -> Seq<Event>
        decreases items, 0int, items.len() - from,
    {
        if 0 <= from < items.len() {
            items[from].events() + Json::items_events(items, from + 1)
        } else {
            Seq::empty()
        }
    }

    /// The parts of the members from an index on.
    pub open spec fn members_events(members: Seq<Member>, from: int) -> Seq<Event>
        decreases members, 0int, members.len() - from,
    {
        if 0 <= from < members.len() {
            seq![Event::Name(members[from].name)] + members[from].value.events()
                + Json::members_events(members, from + 1)
        } else {
            Seq::empty()
        }
    }
}

impl Transferred {
    /// What is written by the action: a part of the value, unless a string is not complete yet;
    /// `text` are the pieces of the string which were written before.
    pub open spec fn written(self, text: Seq<char>) -> Seq<Event> {
        match self {
            Transferred::BeginArray => seq![Event::BeginArray],
            Transferred::EndArray => seq![Event::EndArray],
            Transferred::BeginObject => seq![Event::BeginObject],
            Transferred::EndObject => seq![Event::EndObject],
            Transferred::Name(name) => seq![Event::Name(name)],
            Transferred::StringPiece { text: piece, last: true } => seq![
                Event::String(text + piece),
            ],
            Transferred::Number(number) => seq![Event::Number(number)],
            Transferred::Bool(value) => seq![Event::Bool(value)],
            Transferred::Null => seq![Event::Null],
            _ => Seq::empty(),
        }
    }

    /// The pieces of a string which is not complete yet behind the action.
    pub open spec fn incomplete_text(self, text: Seq<char>) -> Seq<char> {
        match self {
            Transferred::StringPiece { text: piece, last: false } => text + piece,
            _ => Seq::empty(),
        }
    }
}

/// The parts which are written by the actions, when the pieces of each string are joined; `text`
/// are the pieces which were written before.
pub open spec fn joined(actions: Seq<Transferred>, text: Seq<char>) -> Seq<Event>
    decreases actions.len(),
{
    if actions.len() == 0 {
        Seq::empty()
    } else {
        actions[0].written(text) + joined(actions.skip(1), actions[0].incomplete_text(text))
    }
}

/// What a single action writes.
proof fn lemma_joined_single(action: Transferred, text: Seq<char>)
    ensures
        joined(seq![action], text) == action.written(text),
{
    reveal_with_fuel(joined, 2);
    assert(seq![action].skip(1) =~= Seq::empty());
    assert(joined(seq![action], text) =~= action.written(text));
}

/// Whether the actions do not continue a string.
pub open spec fn is_separate(actions: Seq<Transferred>) -> bool {
    actions.len() == 0 || !(actions[0] is StringPiece)
}

/// The parts written by actions one after the other.
proof fn lemma_joined_concat(first: Seq<Transferred>, second: Seq<Transferred>, text: Seq<char>)
    requires
        is_separate(second),
    ensures
        joined(first + second, text) == joined(first, text) + joined(second, Seq::empty()),
    decreases first.len(),
{
    let all = first + second;
    if first.len() == 0 {
        assert(all =~= second);
        if second.len() > 0 {
            assert(second[0].written(text) == second[0].written(Seq::empty()));
        }
        assert(joined(first, text) + joined(second, Seq::empty()) =~= joined(second, Seq::empty()));
    } else {
        let rest = first.skip(1);
        assert(all.skip(1) =~= rest + second);
        assert(all[0] == first[0]);
        lemma_joined_concat(rest, second, first[0].incomplete_text(text));
        assert(joined(all, text) =~= joined(first, text) + joined(second, Seq::empty()));
    }
}

impl ReaderModel {
    /// Whether the actions have to be carried out to get from this state to another while a value
    /// is transferred.
    pub open spec fn transfers_to(self, actions: Seq<Transferred>, next: ReaderModel) -> bool
        decreases actions.len(),
    {
        if actions.len() == 0 {
            next == self
        } else {
            &&& self.transfer_next().1 == Outcome::Ready(actions[0])
            &&& !(actions[0] is Finished)
            &&& self.transfer_next().0.transfers_to(actions.skip(1), next)
        }
    }

    /// Two states in which a transfer goes on the same way.
    pub open spec fn goes_on_like(self, other: ReaderModel) -> bool {
        self.transfer_next() == other.transfer_next()
    }

    /// Actions are carried out one after the other.
    proof fn lemma_transfers_concat(
        self,
        first: Seq<Transferred>,
        middle: ReaderModel,
        like: ReaderModel,
        second: Seq<Transferred>,
        next: ReaderModel,
    )
        requires
            self.transfers_to(first, middle),
            middle.goes_on_like(like),
            like.transfers_to(second, next),
            second.len() > 0,
        ensures
            self.transfers_to(first + second, next),
        decreases first.len(),
    {
        let all = first + second;
        if first.len() == 0 {
            assert(all =~= second);
        } else {
            assert(all[0] == first[0]);
            assert(all.skip(1) =~= first.skip(1) + second);
            self.transfer_next().0.lemma_transfers_concat(
                first.skip(1),
                middle,
                like,
                second,
                next,
            );
        }
    }

    /// The same state while the value at a nesting depth is transferred.
    pub open spec fn transferring(self, base: nat, started: bool) -> ReaderModel {
        ReaderModel {
            transfer: Some(TransferProgress { base, started }),
            ongoing: Some(Operation::TransferTo),
            ..self
        }
    }

    /// Whether the state is one in which a value is transferred which a user could read as well.
    pub open spec fn is_transferable(self, base: nat, started: bool) -> bool {
        &&& self.is_free()
        &&& !self.expects_member_name
        &&& base <= self.stack.len()
        &&& started == (self.stack.len() > base)
        &&& self.stack.len() > base && !self.expects_member_value() ==> self.peeked is Some
    }

    /// A single action.
    proof fn lemma_single_action(self, action: Transferred, next: ReaderModel)
        requires
            self.transfer_next() == (next, Outcome::Ready(action)),
            !(action is Finished),
        ensures
            self.transfers_to(seq![action], next),
            next.goes_on_like(next),
    {
        let actions = seq![action];
        assert(actions.skip(1) =~= Seq::empty());
        assert(next.transfers_to(actions.skip(1), next));
    }
}

impl ReaderModel {
    /// Whether the actions write the parts, and the transfer goes on like in another state then.
    pub open spec fn writes(
        self,
        actions: Seq<Transferred>,
        last: ReaderModel,
        like: ReaderModel,
        events: Seq<Event>,
    ) -> bool {
        &&& self.transfers_to(actions, last)
        &&& last.goes_on_like(like)
        &&& joined(actions, Seq::empty()) == events
        &&& actions.len() > 0
        &&& is_separate(actions)
    }

    /// Parts which are written one after the other.
    proof fn lemma_writes_concat(
        self,
        first: Seq<Transferred>,
        middle: ReaderModel,
        like: ReaderModel,
        events: Seq<Event>,
        second: Seq<Transferred>,
        last: ReaderModel,
        last_like: ReaderModel,
        more: Seq<Event>,
    )
        requires
            self.writes(first, middle, like, events),
            like.writes(second, last, last_like, more),
        ensures
            self.writes(first + second, last, last_like, events + more),
    {
        self.lemma_transfers_concat(first, middle, like, second, last);
        lemma_joined_concat(first, second, Seq::empty());
    }

    /// A single part is written.
    proof fn lemma_writes_single(self, action: Transferred, next: ReaderModel)
        requires
            self.transfer_next() == (next, Outcome::Ready(action)),
            !(action is Finished),
            !(action is StringPiece),
        ensures
            self.writes(seq![action], next, next, action.written(Seq::empty())),
    {
        self.lemma_single_action(action, next);
        lemma_joined_single(action, Seq::empty());
    }

    /// The first step of transferring a value.
    proof fn lemma_transfer_value_step(self, base: nat, started: bool, value_type: ValueType)
        requires
            self.is_transferable(base, started),
            self.peek_value().1 == Outcome::Ready(value_type),
        ensures
            ({
                let purpose = Purpose {
                    skip_base: None,
                    transfer: Some(TransferProgress { base, started }),
                    ongoing: None,
                };
                let peeked = self.peek_value().0;
                &&& self.transferring(base, started).picked_up().transfer_any()
                    == peeked.with_purpose(purpose).transfer_typed(value_type)
                &&& peeked.is_free()
                &&& peeked.stack == self.stack
                &&& !peeked.expects_member_name
                &&& peeked.peeked is Some
                &&& peeked.peeked->0.value_type() == value_type
                &&& !peeked.peeked->0.is_end()
            }),
    {
        reveal(ReaderModel::transfer_any);
        let transfer = TransferProgress { base, started };
        let purpose = Purpose { skip_base: None, transfer: Some(transfer), ongoing: None };
        let m = self.transferring(base, started).picked_up();
        assert(m == self.with_purpose(purpose));
        self.lemma_peek_value();
        self.lemma_peek_value_indifferent(purpose);
        assert(m.transfer_value() == self.peek_value().0.with_purpose(purpose).transfer_typed(
            value_type,
        ));
        if self.stack.len() > base && !self.expects_member_value() {
            assert(m.check_next() == (m, Outcome::Ready(true)));
        }
    }

    /// A number is read the same way whatever it is read for.
    proof fn lemma_read_number_for(self, purpose: Purpose)
        requires
            self.can_peek(),
            self.peeked is Some,
            self.read_number(true).1 is Ready,
        ensures
            self.with_purpose(purpose).read_number(true) == (
                self.read_number(true).0.with_purpose(purpose),
                self.read_number(true).1,
            ),
    {
    }

    /// A boolean or null is read the same way whatever it is read for.
    proof fn lemma_read_literal_for(self, purpose: Purpose)
        requires
            self.can_peek(),
            self.peeked is Some,
        ensures
            self.read_bool().1 is Ready ==> self.with_purpose(purpose).read_bool() == (
                self.read_bool().0.with_purpose(purpose),
                self.read_bool().1,
            ),
            self.read_null().1 is Ready ==> self.with_purpose(purpose).read_null() == (
                self.read_null().0.with_purpose(purpose),
                self.read_null().1,
            ),
    {
    }

    /// An action ends up in a state in which the transfer has been started.
    proof fn lemma_transfer_next_is(
        self,
        base: nat,
        started: bool,
        read: ReaderModel,
        action: Transferred,
    )
        requires
            ({
                let purpose = Purpose {
                    skip_base: None,
                    transfer: Some(TransferProgress { base, started }),
                    ongoing: None,
                };
                self.transferring(base, started).picked_up().transfer_any() == (
                    read.with_purpose(purpose).transfer_started(),
                    Outcome::Ready(action),
                )
            }),
            read.skip_base is None,
            !(action is Finished),
        ensures
            self.transferring(base, started).transfer_next() == (
                read.transferring(base, true),
                Outcome::Ready(action),
            ),
    {
    }

    /// A number, boolean or null is transferred as it is read.
    proof fn lemma_transfer_simple(
        self,
        base: nat,
        started: bool,
        value: Json,
        fuel: nat,
    ) -> (action:
        Transferred)
        requires
            self.is_transferable(base, started),
            self.read_json(fuel).1 == Outcome::Ready(value),
            self.peek_value().1 is Ready,
            !(self.peek_value().1->Ready_0 is Array),
            !(self.peek_value().1->Ready_0 is Object),
            !(self.peek_value().1->Ready_0 is String),
        ensures
            ({
                let next = self.read_json(fuel).0.transferring(base, true);
                &&& self.transferring(base, started).writes(
                    seq![action],
                    next,
                    next,
                    value.events(),
                )
                &&& self.read_json(fuel).0.is_behind_element()
                &&& self.read_json(fuel).0.stack == self.stack
            }),
    {
        assert(self.picked_up() == self);
        let purpose = Purpose {
            skip_base: None,
            transfer: Some(TransferProgress { base, started }),
            ongoing: None,
        };
        let (peeked, outcome) = self.peek_value();
        let value_type = outcome->Ready_0;
        self.lemma_transfer_value_step(base, started, value_type);
        assert(self.peek() == (peeked, outcome));
        assert(peeked.picked_up() == peeked);
        let read = self.read_json(fuel).0;
        let action = match value_type {
            ValueType::Number => {
                peeked.lemma_read_number(true);
                assert(peeked.next_number() == peeked.read_number(true));
                peeked.lemma_read_number_for(purpose);
                Transferred::Number(value->Number_0)
            },
            ValueType::Boolean => {
                peeked.lemma_read_bool();
                assert(peeked.next_bool() == peeked.read_bool());
                peeked.lemma_read_literal_for(purpose);
                Transferred::Bool(value->Bool_0)
            },
            _ => {
                peeked.lemma_read_null();
                assert(peeked.next_null() == peeked.read_null());
                peeked.lemma_read_literal_for(purpose);
                Transferred::Null
            },
        };
        self.lemma_transfer_next_is(base, started, read, action);
        self.transferring(base, started).lemma_writes_single(
            action,
            read.transferring(base, true),
        );
        action
    }

    /// The remaining pieces of a string are transferred.
    proof fn lemma_transfer_pieces(self, text: Seq<char>) -> (result: (
        Seq<Transferred>,
        ReaderModel,
    ))
        requires
            self.transfer matches Some(transfer),
            self.doing is TransferringString,
            self.ongoing == Some(Operation::TransferTo),
            self.scan.value == Some(Seq::<u8>::empty()),
            self.scan.read_string().1 == StringEnd::Quote,
        ensures
            ({
                let (actions, last) = result;
                let closed = ReaderModel { scan: self.scan.read_string().0, ..self };
                &&& self.transfers_to(actions, last)
                &&& actions.len() > 0
                &&& joined(actions, text) == seq![Event::String(text + closed.text())]
                &&& last == (ReaderModel { doing: Doing::StringTransferred, ..closed.string_closed() })
            }),
        decreases self.scan.pending.bytes.len(),
    {
        reveal(ReaderModel::transfer_any);
        let m = self.picked_up();
        let scan = self.scan;
        assert(m.transfer_any() == m.transfer_piece());
        scan.lemma_read_piece();
        scan.lemma_read_piece_is_prefix();
        let (behind, end) = scan.read_piece();
        let piece = decode_utf8(behind.value->0);
        if end is None {
            scan.lemma_piece_consumes();
            let action = Transferred::StringPiece { text: piece, last: false };
            let next = self.transfer_next().0;
            let rest_scan = behind.with_value(Some(Seq::empty()));
            assert(next.scan == rest_scan);
            behind.lemma_string_bytes();
            rest_scan.lemma_string_bytes();
            assert(behind.with_value(None) == rest_scan.with_value(None));
            assert(behind.with_value(Some(Seq::empty())) == rest_scan.with_value(
                Some(Seq::empty()),
            ));
            assert(Seq::<u8>::empty() + rest_scan.string_bytes() =~= rest_scan.string_bytes());
            crate::utf8::lemma_decode_concat(behind.value->0, rest_scan.string_bytes());
            let (rest, last) = next.lemma_transfer_pieces(text + piece);
            let actions = seq![action] + rest;
            assert(actions.skip(1) =~= rest);
            assert(joined(actions, text) =~= joined(rest, text + piece));
            let closed = ReaderModel { scan: self.scan.read_string().0, ..self };
            let rest_closed = ReaderModel { scan: next.scan.read_string().0, ..next };
            assert(text + piece + rest_closed.text() =~= text + closed.text());
            assert(closed.string_closed().scan == rest_closed.string_closed().scan);
            (actions, last)
        } else {
            let action = Transferred::StringPiece { text: piece, last: true };
            let last = self.transfer_next().0;
            self.lemma_single_action(action, last);
            lemma_joined_single(action, text);
            (seq![action], last)
        }
    }
}

impl ScanState {
    /// A piece which is not the last one is not empty.
    proof fn lemma_piece_consumes(self)
        requires
            self.value == Some(Seq::<u8>::empty()),
            self.read_piece().1 is None,
        ensures
            self.read_piece().0.pending.bytes.len() < self.pending.bytes.len(),
            valid_utf8(self.read_piece().0.value->0),
    {
        self.lemma_string_step();
        self.pending.lemma_string_char();
        self.lemma_read_piece();
        let (next, end) = self.string_step();
        assert(end is None);
        next.lemma_read_piece();
    }
}

impl ReaderModel {
    /// A string is transferred in pieces as it is read.
    proof fn lemma_transfer_string_as_read(
        self,
        base: nat,
        started: bool,
        value: Json,
        fuel: nat,
    ) -> (result: (Seq<Transferred>, ReaderModel))
        requires
            self.is_transferable(base, started),
            self.read_json(fuel).1 == Outcome::Ready(value),
            self.peek_value().1 == Outcome::Ready(ValueType::String),
        ensures
            ({
                let (actions, last) = result;
                let next = self.read_json(fuel).0;
                &&& self.transferring(base, started).writes(
                    actions,
                    last,
                    next.transferring(base, true),
                    value.events(),
                )
                &&& next.is_behind_element()
                &&& next.stack == self.stack
            }),
    {
        assert(self.picked_up() == self);
        let (peeked, outcome) = self.peek_value();
        self.lemma_transfer_value_step(base, started, ValueType::String);
        assert(self.peek() == (peeked, outcome));
        assert(peeked.picked_up() == peeked);
        peeked.lemma_read_string(true);
        assert(peeked.next_string() == peeked.read_string(true));
        let read = self.read_json(fuel).0;
        let begun = peeked.consume_peeked().reading(Doing::TransferringString, true);
        self.lemma_transfer_next_is(base, started, begun, Transferred::BeginString);
        let reading = peeked.consume_peeked().reading(Doing::ReadingString, true);
        assert(peeked.start_value(ValueType::String, false).0 == peeked.consume_peeked());
        assert(peeked.read_string(true) == reading.continue_string());
        let transferring = begun.transferring(base, true);
        let none = Seq::<char>::empty();
        let (pieces, last) = transferring.lemma_transfer_pieces(none);
        let actions = seq![Transferred::BeginString] + pieces;
        assert(actions.skip(1) =~= pieces);
        assert(joined(actions, none) =~= joined(pieces, none));
        let closed = ReaderModel { scan: reading.scan.read_string().0, ..reading };
        assert(none + closed.text() =~= closed.text());
        assert(read == closed.string_closed().value_ended());
        last.lemma_behind_transferred_string(read, base);
        (actions, last)
    }

    /// Behind the last piece of a string a transfer goes on like behind another value.
    proof fn lemma_behind_transferred_string(self, read: ReaderModel, base: nat)
        requires
            self.doing is StringTransferred,
            self.transfer == Some(TransferProgress { base, started: true }),
            self.ongoing == Some(Operation::TransferTo),
            read.doing is Idle,
            (ReaderModel { doing: Doing::Idle, ..self }).value_ended() == read.transferring(
                base,
                true,
            ),
        ensures
            self.goes_on_like(read.transferring(base, true)),
    {
        reveal(ReaderModel::transfer_any);
        let idle = ReaderModel { doing: Doing::Idle, ..self.picked_up() };
        assert(idle.value_ended() == read.transferring(base, true).picked_up());
    }

    /// An array or object is entered the same way whatever it is read for.
    proof fn lemma_begin_for(self, container: StackValue, purpose: Purpose)
        requires
            self.can_peek(),
            self.peeked is Some,
            self.begin_container(container).1 is Ready,
        ensures
            self.with_purpose(purpose).begin_container(container) == (
                self.begin_container(container).0.with_purpose(purpose),
                Outcome::Ready(()),
            ),
    {
    }

    /// The start of an array or object is transferred as it is read.
    proof fn lemma_transfer_enter(
        self,
        base: nat,
        started: bool,
        container: StackValue,
        fuel: nat,
    ) -> (inside: ReaderModel)
        requires
            self.is_transferable(base, started),
            self.read_json(fuel).1 is Ready,
            self.peek_value().1 == Outcome::Ready(
                match container {
                    StackValue::Array => ValueType::Array,
                    StackValue::Object => ValueType::Object,
                },
            ),
        ensures
            inside.is_free(),
            inside.stack == self.stack.push(container),
            inside.expects_member_name == (container is Object),
            fuel > 0,
            self.read_json(fuel) == match container {
                StackValue::Array => inside.read_json_items(Seq::empty(), (fuel - 1) as nat),
                StackValue::Object => inside.read_json_members(Seq::empty(), (fuel - 1) as nat),
            },
            ({
                let action = match container {
                    StackValue::Array => Transferred::BeginArray,
                    StackValue::Object => Transferred::BeginObject,
                };
                let next = inside.transferring(base, true);
                self.transferring(base, started).writes(
                    seq![action],
                    next,
                    next,
                    action.written(Seq::empty()),
                )
            }),
    {
        assert(self.picked_up() == self);
        let purpose = Purpose {
            skip_base: None,
            transfer: Some(TransferProgress { base, started }),
            ongoing: None,
        };
        let (peeked, outcome) = self.peek_value();
        self.lemma_transfer_value_step(base, started, outcome->Ready_0);
        assert(self.peek() == (peeked, outcome));
        assert(peeked.picked_up() == peeked);
        peeked.lemma_begin_container(container);
        let (inside, begun) = peeked.begin_container(container);
        match container {
            StackValue::Array => assert(peeked.begin_array() == (inside, begun)),
            StackValue::Object => assert(peeked.begin_object() == (inside, begun)),
        }
        peeked.lemma_begin_for(container, purpose);
        let action = match container {
            StackValue::Array => Transferred::BeginArray,
            StackValue::Object => Transferred::BeginObject,
        };
        self.lemma_transfer_next_is(base, started, inside, action);
        self.transferring(base, started).lemma_writes_single(
            action,
            inside.transferring(base, true),
        );
        inside
    }

    /// What is next in an array or object is determined while it is transferred.
    proof fn lemma_transfer_check(self, base: nat)
        requires
            self.is_free(),
            self.stack.len() > base,
            !self.expects_member_value(),
            self.has_next().1 is Ready,
        ensures
            ({
                let next = self.has_next().0;
                &&& next.is_free()
                &&& self.same_but_token(next)
                &&& next.peeked is Some
                &&& self.has_next().1 == Outcome::Ready(!next.peeked->0.is_end())
                &&& self.transferring(base, true).goes_on_like(next.transferring(base, true))
            }),
    {
        reveal(ReaderModel::has_next);
        reveal(ReaderModel::transfer_any);
        assert(self.picked_up() == self);
        self.lemma_check_next();
        let transfer = TransferProgress { base, started: true };
        let purpose = Purpose { skip_base: None, transfer: Some(transfer), ongoing: None };
        self.lemma_peek_internal_indifferent(purpose);
        let next = self.has_next().0;
        let m = self.transferring(base, true).picked_up();
        let n = next.transferring(base, true).picked_up();
        assert(m == self.with_purpose(purpose));
        assert(n == next.with_purpose(purpose));
        assert(m.check_next() == n.check_next());
        assert(m.transfer_token(transfer) == n.transfer_token(transfer));
    }

    /// The end of an array or object is transferred as it is read.
    proof fn lemma_transfer_end_as_read(self, base: nat, container: StackValue)
        requires
            self.is_free(),
            self.stack.len() > base,
            self.stack.last() == container,
            self.expects_member_name == (container is Object),
            self.has_next().1 == Outcome::Ready(false),
            self.has_next().0.end_container(container).1 is Ready,
        ensures
            ({
                let behind = self.has_next().0.end_container(container).0;
                let next = behind.transferring(base, true);
                let action = match container {
                    StackValue::Array => Transferred::EndArray,
                    StackValue::Object => Transferred::EndObject,
                };
                &&& self.transferring(base, true).writes(
                    seq![action],
                    next,
                    next,
                    action.written(Seq::empty()),
                )
                &&& behind.is_behind_element()
                &&& behind.stack == self.stack.drop_last()
            }),
    {
        reveal(ReaderModel::transfer_any);
        self.lemma_transfer_check(base);
        let next = self.has_next().0;
        next.lemma_end_container(container);
        let (behind, _) = next.end_container(container);
        let transfer = TransferProgress { base, started: true };
        let purpose = Purpose { skip_base: None, transfer: Some(transfer), ongoing: None };
        let n = next.transferring(base, true).picked_up();
        assert(n == next.with_purpose(purpose));
        assert(n.check_next() == (n, Outcome::Ready(false)));
        assert(n.end_container(container) == (
            behind.with_purpose(purpose),
            Outcome::Ready(()),
        ));
        let action = match container {
            StackValue::Array => Transferred::EndArray,
            StackValue::Object => Transferred::EndObject,
        };
        assert(behind.with_purpose(purpose) == behind.with_purpose(purpose).transfer_started());
        next.lemma_transfer_next_is(base, true, behind, action);
        self.transferring(base, true).lemma_writes_single(action, behind.transferring(base, true));
    }

    /// A member name which was peeked at is transferred as it is read.
    proof fn lemma_transfer_name_as_read(self, base: nat, name: Seq<char>)
        requires
            self.is_free(),
            self.stack.len() > base,
            self.expects_member_name,
            self.peeked == Some(PeekedValue::NameStart),
            self.next_name().1 == Outcome::Ready(name),
        ensures
            ({
                let named = self.next_name().0;
                let next = named.transferring(base, true);
                &&& self.transferring(base, true).writes(
                    seq![Transferred::Name(name)],
                    next,
                    next,
                    seq![Event::Name(name)],
                )
                &&& named.is_free()
                &&& named.expects_member_value()
                &&& named.stack == self.stack
            }),
    {
        reveal(ReaderModel::next_name);
        reveal(ReaderModel::transfer_any);
        assert(self.picked_up() == self);
        self.lemma_read_name(true);
        let named = self.next_name().0;
        let transfer = TransferProgress { base, started: true };
        let purpose = Purpose { skip_base: None, transfer: Some(transfer), ongoing: None };
        let n = self.transferring(base, true).picked_up();
        assert(n == self.with_purpose(purpose));
        assert(n.check_next() == (n, Outcome::Ready(true)));
        assert(self.check_next() == (self, Outcome::Ready(true)));
        assert(n.read_name(true) == (named.with_purpose(purpose), Outcome::Ready(name)));
        assert(named.with_purpose(purpose) == named.with_purpose(purpose).transfer_started());
        let action = Transferred::Name(name);
        self.lemma_transfer_next_is(base, true, named, action);
        self.transferring(base, true).lemma_writes_single(action, named.transferring(base, true));
    }

    /// A value is transferred as it is read.
    proof fn lemma_transfer_as_read(
        self,
        base: nat,
        started: bool,
        value: Json,
        fuel: nat,
    ) -> (result: (Seq<Transferred>, ReaderModel))
        requires
            self.is_transferable(base, started),
            self.read_json(fuel).1 == Outcome::Ready(value),
        ensures
            ({
                let (actions, last) = result;
                let next = self.read_json(fuel).0;
                &&& self.transferring(base, started).writes(
                    actions,
                    last,
                    next.transferring(base, true),
                    value.events(),
                )
                &&& next.is_behind_element()
                &&& next.stack == self.stack
            }),
        decreases fuel,
    {
        assert(self.picked_up() == self);
        let value_type = self.peek_value().1->Ready_0;
        if value_type is Array {
            let inside = self.lemma_transfer_enter(base, started, StackValue::Array, fuel);
            let (rest, last) = inside.lemma_transfer_items_as_read(
                base,
                Seq::empty(),
                value,
                (fuel - 1) as nat,
            );
            let begin = inside.transferring(base, true);
            let next = self.read_json(fuel).0;
            let first = seq![Transferred::BeginArray];
            let more = Json::items_events(value->Array_0, 0) + seq![Event::EndArray];
            self.transferring(base, started).lemma_writes_concat(
                first,
                begin,
                begin,
                seq![Event::BeginArray],
                rest,
                last,
                next.transferring(base, true),
                more,
            );
            assert(seq![Event::BeginArray] + more =~= value.events());
            assert(inside.stack.drop_last() =~= self.stack);
            (first + rest, last)
        } else if value_type is Object {
            let inside = self.lemma_transfer_enter(base, started, StackValue::Object, fuel);
            let (rest, last) = inside.lemma_transfer_members_as_read(
                base,
                Seq::empty(),
                value,
                (fuel - 1) as nat,
            );
            let begin = inside.transferring(base, true);
            let next = self.read_json(fuel).0;
            let first = seq![Transferred::BeginObject];
            let more = Json::members_events(value->Object_0, 0) + seq![Event::EndObject];
            self.transferring(base, started).lemma_writes_concat(
                first,
                begin,
                begin,
                seq![Event::BeginObject],
                rest,
                last,
                next.transferring(base, true),
                more,
            );
            assert(seq![Event::BeginObject] + more =~= value.events());
            assert(inside.stack.drop_last() =~= self.stack);
            (first + rest, last)
        } else if value_type is String {
            self.lemma_transfer_string_as_read(base, started, value, fuel)
        } else {
            let action = self.lemma_transfer_simple(base, started, value, fuel);
            (seq![action], self.read_json(fuel).0.transferring(base, true))
        }
    }

    /// The items of an array are transferred as they are read.
    proof fn lemma_transfer_items_as_read(
        self,
        base: nat,
        items: Seq<Json>,
        value: Json,
        fuel: nat,
    ) -> (result: (Seq<Transferred>, ReaderModel))
        requires
            self.is_free(),
            self.stack.len() > base,
            self.is_in_array(),
            !self.expects_member_name,
            self.read_json_items(items, fuel).1 == Outcome::Ready(value),
        ensures
            value is Array,
            value->Array_0.len() >= items.len(),
            value->Array_0.take(items.len() as int) == items,
            ({
                let (actions, last) = result;
                let next = self.read_json_items(items, fuel).0;
                &&& self.transferring(base, true).writes(
                    actions,
                    last,
                    next.transferring(base, true),
                    Json::items_events(value->Array_0, items.len() as int) + seq![Event::EndArray],
                )
                &&& next.is_behind_element()
                &&& next.stack == self.stack.drop_last()
            }),
        decreases fuel,
    {
        self.lemma_transfer_check(base);
        let (next, outcome) = self.has_next();
        assert(next.picked_up() == next);
        let this = self.transferring(base, true);
        if outcome == Outcome::Ready(true) {
            let from = items.len() as int;
            let rest_fuel = (fuel - 1) as nat;
            let (behind, read) = next.read_json(rest_fuel);
            let item = read->Ready_0;
            let (first, middle) = next.lemma_transfer_as_read(base, true, item, rest_fuel);
            let (second, last) = behind.lemma_transfer_items_as_read(
                base,
                items.push(item),
                value,
                rest_fuel,
            );
            let all = value->Array_0;
            assert(all.take(from + 1)[from] == item);
            assert(all.take(from) =~= all.take(from + 1).take(from));
            assert(items.push(item).take(from) =~= items);
            let end = self.read_json_items(items, fuel).0.transferring(base, true);
            let more = Json::items_events(all, from + 1) + seq![Event::EndArray];
            let at_item = next.transferring(base, true);
            this.lemma_writes_like(
                at_item,
                first,
                middle,
                behind.transferring(base, true),
                item.events(),
            );
            this.lemma_writes_concat(
                first,
                middle,
                behind.transferring(base, true),
                item.events(),
                second,
                last,
                end,
                more,
            );
            assert(item.events() + more =~= Json::items_events(all, from) + seq![Event::EndArray]);
            (first + second, last)
        } else {
            self.lemma_transfer_end_as_read(base, StackValue::Array);
            let behind = next.end_container(StackValue::Array).0;
            assert(next.end_array().0 == behind);
            assert(items.take(items.len() as int) =~= items);
            assert(Json::items_events(items, items.len() as int) + seq![Event::EndArray]
                =~= seq![Event::EndArray]);
            (seq![Transferred::EndArray], behind.transferring(base, true))
        }
    }

    /// What is written from a state is written from another one as well in which the transfer goes
    /// on the same way.
    proof fn lemma_writes_like(
        self,
        other: ReaderModel,
        actions: Seq<Transferred>,
        last: ReaderModel,
        like: ReaderModel,
        events: Seq<Event>,
    )
        requires
            self.goes_on_like(other),
            other.writes(actions, last, like, events),
        ensures
            self.writes(actions, last, like, events),
    {
    }

    /// The members of an object are transferred as they are read.
    proof fn lemma_transfer_members_as_read(
        self,
        base: nat,
        members: Seq<Member>,
        value: Json,
        fuel: nat,
    ) -> (result: (Seq<Transferred>, ReaderModel))
        requires
            self.is_free(),
            self.stack.len() > base,
            self.is_in_object(),
            self.expects_member_name,
            self.read_json_members(members, fuel).1 == Outcome::Ready(value),
        ensures
            value is Object,
            value->Object_0.len() >= members.len(),
            value->Object_0.take(members.len() as int) == members,
            ({
                let (actions, last) = result;
                let next = self.read_json_members(members, fuel).0;
                &&& self.transferring(base, true).writes(
                    actions,
                    last,
                    next.transferring(base, true),
                    Json::members_events(value->Object_0, members.len() as int) + seq![
                        Event::EndObject,
                    ],
                )
                &&& next.is_behind_element()
                &&& next.stack == self.stack.drop_last()
            }),
        decreases fuel,
    {
        self.lemma_transfer_check(base);
        let (next, outcome) = self.has_next();
        assert(next.picked_up() == next);
        let this = self.transferring(base, true);
        if outcome == Outcome::Ready(true) {
            let from = members.len() as int;
            let rest_fuel = (fuel - 1) as nat;
            let (named, named_outcome) = next.next_name();
            let name = named_outcome->Ready_0;
            next.lemma_transfer_name_as_read(base, name);
            let (behind, read) = named.read_json(rest_fuel);
            let member = Member { name, value: read->Ready_0 };
            let (second, middle) = named.lemma_transfer_as_read(
                base,
                true,
                member.value,
                rest_fuel,
            );
            let (third, last) = behind.lemma_transfer_members_as_read(
                base,
                members.push(member),
                value,
                rest_fuel,
            );
            let all = value->Object_0;
            assert(all.take(from + 1)[from] == member);
            assert(all.take(from) =~= all.take(from + 1).take(from));
            assert(members.push(member).take(from) =~= members);
            let end = self.read_json_members(members, fuel).0.transferring(base, true);
            let more = Json::members_events(all, from + 1) + seq![Event::EndObject];
            let first = seq![Transferred::Name(name)];
            let at_value = named.transferring(base, true);
            this.lemma_writes_like(
                next.transferring(base, true),
                first,
                at_value,
                at_value,
                seq![Event::Name(name)],
            );
            this.lemma_writes_concat(
                first,
                at_value,
                at_value,
                seq![Event::Name(name)],
                second,
                middle,
                behind.transferring(base, true),
                member.value.events(),
            );
            let member_events = seq![Event::Name(name)] + member.value.events();
            this.lemma_writes_concat(
                first + second,
                middle,
                behind.transferring(base, true),
                member_events,
                third,
                last,
                end,
                more,
            );
            assert(member_events + more =~= Json::members_events(all, from) + seq![
                Event::EndObject,
            ]);
            (first + second + third, last)
        } else {
            self.lemma_transfer_end_as_read(base, StackValue::Object);
            let behind = next.end_container(StackValue::Object).0;
            assert(next.end_object().0 == behind);
            assert(members.take(members.len() as int) =~= members);
            assert(Json::members_events(members, members.len() as int) + seq![Event::EndObject]
                =~= seq![Event::EndObject]);
            (seq![Transferred::EndObject], behind.transferring(base, true))
        }
    }

    /// What is transferred to a writer is the value which would be read, if it can be read: its
    /// parts are written in their order, strings possibly in several pieces, and then the transfer
    /// is finished in the same state as if the value was read.
    ///
    /// Returns the actions, and the state in front of the last call.
    pub proof fn law_transfer_agrees_with_reading(self, value: Json, fuel: nat) -> (result: (
        Seq<Transferred>,
        ReaderModel,
    ))
        requires
            self.valid(),
            self.ongoing is None,
            self.misuse(Operation::TransferTo) is None,
            self.read_json(fuel).1 == Outcome::Ready(value),
        ensures
            self.transfers_to(result.0, result.1),
            joined(result.0, Seq::empty()) == value.events(),
            result.1.transfer_next() == (
                self.read_json(fuel).0,
                Outcome::Ready(Transferred::Finished),
            ),
    {
        self.lemma_ready(Operation::TransferTo);
        let base = self.stack.len();
        let (actions, last) = self.lemma_transfer_as_read(base, false, value, fuel);
        let this = self.transferring(base, false);
        let read = self.read_json(fuel).0;
        reveal(ReaderModel::transfer_any);
        assert(self.picked_up().transfer_any() == this.picked_up().transfer_any());
        assert(self.goes_on_like(this));
        self.lemma_writes_like(
            this,
            actions,
            last,
            read.transferring(base, true),
            value.events(),
        );
        assert(read.transferring(base, true).transfer_next() == (
            read,
            Outcome::Ready(Transferred::Finished),
        ));
        (actions, last)
    }
}

// ---- Whatever was transferred can be skipped ----

impl ReaderModel {
    /// Whether the transfer finishes in a state after the actions have been carried out.
    pub open spec fn finishes_with(self, actions: Seq<Transferred>, end: ReaderModel) -> bool
        decreases actions.len(),
    {
        if actions.len() == 0 {
            self.transfer_next() == (end, Outcome::Ready(Transferred::Finished))
        } else {
            &&& self.transfer_next().1 == Outcome::Ready(actions[0])
            &&& !(actions[0] is Finished)
            &&& self.transfer_next().0.finishes_with(actions.skip(1), end)
        }
    }

    /// What follows after some of the actions have been carried out.
    proof fn lemma_finishes_behind(
        self,
        actions: Seq<Transferred>,
        end: ReaderModel,
        first: Seq<Transferred>,
        middle: ReaderModel,
    )
        requires
            self.finishes_with(actions, end),
            self.transfers_to(first, middle),
        ensures
            first.len() <= actions.len(),
            middle.finishes_with(actions.skip(first.len() as int), end),
        decreases first.len(),
    {
        if first.len() == 0 {
            assert(actions.skip(0) =~= actions);
        } else {
            let rest = actions.skip(1);
            self.transfer_next().0.lemma_finishes_behind(rest, end, first.skip(1), middle);
            assert(rest.skip(first.len() - 1) =~= actions.skip(first.len() as int));
        }
    }

    /// A string which was transferred completely has an end.
    proof fn lemma_transferred_string_ends(self, actions: Seq<Transferred>, end: ReaderModel)
        requires
            self.transfer is Some,
            self.doing is TransferringString,
            self.ongoing == Some(Operation::TransferTo),
            self.scan.value == Some(Seq::<u8>::empty()),
            self.finishes_with(actions, end),
        ensures
            self.scan.read_string().1 == StringEnd::Quote,
        decreases actions.len(),
    {
        reveal(ReaderModel::transfer_any);
        let m = self.picked_up();
        let scan = self.scan;
        assert(m.transfer_any() == m.transfer_piece());
        scan.lemma_read_piece_is_prefix();
        let (behind, stop) = scan.read_piece();
        if stop is None {
            let next = self.transfer_next().0;
            next.lemma_transferred_string_ends(actions.skip(1), end);
            behind.lemma_string_bytes();
            next.scan.lemma_string_bytes();
            assert(behind.with_value(None) == next.scan.with_value(None));
        }
    }

    /// That a value is transferred does not influence how a number, boolean or null is read.
    proof fn lemma_read_for_transfer(self, purpose: Purpose)
        requires
            self.can_peek(),
            self.peeked is Some,
        ensures
            self.with_purpose(purpose).read_number(true).1 == self.read_number(true).1,
            self.with_purpose(purpose).read_bool().1 == self.read_bool().1,
            self.with_purpose(purpose).read_null().1 == self.read_null().1,
    {
    }

    /// That a value is transferred does not influence whether an array or object can be started.
    proof fn lemma_begin_for_transfer(self, container: StackValue, purpose: Purpose)
        requires
            self.can_peek(),
            self.peeked is Some,
        ensures
            self.with_purpose(purpose).begin_container(container).1 == self.begin_container(
                container,
            ).1,
    {
    }

    /// That a value is transferred does not influence whether an array or object can be ended, or
    /// whether a name can be read.
    proof fn lemma_continue_for_transfer(self, purpose: Purpose)
        requires
            self.can_peek(),
            self.peeked is Some,
        ensures
            self.stack.len() > 0 ==> self.with_purpose(purpose).end_container(self.stack.last()).1
                == self.end_container(self.stack.last()).1,
            self.with_purpose(purpose).check_next() == (
                self.with_purpose(purpose),
                Outcome::Ready(!self.peeked->0.is_end()),
            ),
            self.check_next() == (self, Outcome::Ready(!self.peeked->0.is_end())),
            self.with_purpose(purpose).read_name(true).1 == self.read_name(true).1,
    {
    }

    /// Whether skipping goes on from this state to the end where a transfer finishes.
    pub open spec fn skips_to(self, base: nat, started: bool, end: ReaderModel) -> bool {
        if started {
            self.skips_on(base) == (end, Outcome::Ready(()))
        } else {
            self.skipping(base).skip_rest(base) == (end, Outcome::Ready(()))
        }
    }

    /// What was transferred can be skipped, from a state within the value on.
    proof fn lemma_skip_as_transferred(
        self,
        base: nat,
        started: bool,
        actions: Seq<Transferred>,
        end: ReaderModel,
    )
        requires
            self.is_free(),
            base <= self.stack.len(),
            !started ==> self.stack.len() == base && !self.expects_member_name,
            self.transferring(base, started).finishes_with(actions, end),
        ensures
            self.skips_to(base, started, end),
        decreases actions.len(), 2int,
    {
        reveal(ReaderModel::transfer_any);
        let transfer = TransferProgress { base, started };
        let purpose = Purpose { skip_base: None, transfer: Some(transfer), ongoing: None };
        let m = self.transferring(base, started).picked_up();
        assert(m == self.with_purpose(purpose));
        if started && self.stack.len() <= base {
            assert(self.transferring(base, started).transfer_next() == (
                self,
                Outcome::Ready(Transferred::Finished),
            ));
        } else if self.stack.len() > base && !self.expects_member_value() {
            self.lemma_check_next();
            self.lemma_peek_internal_indifferent(purpose);
            assert(self.has_next() == self.check_next()) by {
                reveal(ReaderModel::has_next);
                assert(self.picked_up() == self);
            }
            assert(self.has_next().1 is Ready);
            self.lemma_skip_check(base);
            self.lemma_transfer_check(base);
            let next = self.has_next().0;
            next.lemma_continue_for_transfer(purpose);
            if next.peeked->0.is_end() {
                self.lemma_skip_end_as_transferred(base, actions, end);
            } else if next.expects_member_name {
                self.lemma_skip_name_as_transferred(base, actions, end);
            } else {
                next.lemma_skip_value_as_transferred(base, true, actions, end);
            }
        } else {
            self.lemma_skip_value_as_transferred(base, started, actions, end);
        }
    }

    /// As [`lemma_skip_as_transferred`](Self::lemma_skip_as_transferred), at the end of an array or
    /// object.
    proof fn lemma_skip_end_as_transferred(
        self,
        base: nat,
        actions: Seq<Transferred>,
        end: ReaderModel,
    )
        requires
            self.is_free(),
            self.stack.len() > base,
            !self.expects_member_value(),
            self.has_next().1 == Outcome::Ready(false),
            self.transferring(base, true).finishes_with(actions, end),
        ensures
            self.skips_to(base, true, end),
        decreases actions.len(), 0int,
    {
        reveal(ReaderModel::transfer_any);
        let transfer = TransferProgress { base, started: true };
        let purpose = Purpose { skip_base: None, transfer: Some(transfer), ongoing: None };
        self.lemma_transfer_check(base);
        let next = self.has_next().0;
        let container = self.stack.last();
        next.lemma_continue_for_transfer(purpose);
        let n = next.transferring(base, true).picked_up();
        assert(n == next.with_purpose(purpose));
        assert(n.transfer_any() == n.transfer_end());
        assert(next.end_container(container).1 is Ready);
        self.lemma_skip_end_as_read(base, container);
        self.lemma_transfer_end_as_read(base, container);
        let behind = next.end_container(container).0;
        let action = match container {
            StackValue::Array => Transferred::EndArray,
            StackValue::Object => Transferred::EndObject,
        };
        self.transferring(base, true).lemma_finishes_behind(
            actions,
            end,
            seq![action],
            behind.transferring(base, true),
        );
        behind.lemma_skip_as_transferred(base, true, actions.skip(1), end);
    }

    /// As [`lemma_skip_as_transferred`](Self::lemma_skip_as_transferred), at a member name.
    proof fn lemma_skip_name_as_transferred(
        self,
        base: nat,
        actions: Seq<Transferred>,
        end: ReaderModel,
    )
        requires
            self.is_free(),
            self.stack.len() > base,
            self.expects_member_name,
            self.has_next().1 == Outcome::Ready(true),
            self.transferring(base, true).finishes_with(actions, end),
        ensures
            self.skips_to(base, true, end),
        decreases actions.len(), 0int,
    {
        reveal(ReaderModel::transfer_any);
        let transfer = TransferProgress { base, started: true };
        let purpose = Purpose { skip_base: None, transfer: Some(transfer), ongoing: None };
        self.lemma_skip_check(base);
        self.lemma_transfer_check(base);
        let next = self.has_next().0;
        next.lemma_continue_for_transfer(purpose);
        let n = next.transferring(base, true).picked_up();
        assert(n == next.with_purpose(purpose));
        assert(n.transfer_any() == n.transfer_name());
        assert(next.next_name() == next.read_name(true)) by {
            reveal(ReaderModel::next_name);
            assert(next.picked_up() == next);
            next.lemma_read_name(true);
        }
        let name = next.next_name().1->Ready_0;
        next.lemma_skip_member_name_as_read(base);
        next.lemma_transfer_name_as_read(base, name);
        let named = next.next_name().0;
        next.transferring(base, true).lemma_finishes_behind(
            actions,
            end,
            seq![Transferred::Name(name)],
            named.transferring(base, true),
        );
        named.lemma_skip_as_transferred(base, true, actions.skip(1), end);
    }

    /// As [`lemma_skip_as_transferred`](Self::lemma_skip_as_transferred), at the start of a value.
    proof fn lemma_skip_value_as_transferred(
        self,
        base: nat,
        started: bool,
        actions: Seq<Transferred>,
        end: ReaderModel,
    )
        requires
            self.is_transferable(base, started),
            self.stack.len() > base && !self.expects_member_value()
                ==> !self.peeked->0.is_end(),
            self.transferring(base, started).finishes_with(actions, end),
        ensures
            self.skips_to(base, started, end),
        decreases actions.len(), 1int,
    {
        reveal(ReaderModel::transfer_any);
        let transfer = TransferProgress { base, started };
        let purpose = Purpose { skip_base: None, transfer: Some(transfer), ongoing: None };
        let this = self.transferring(base, started);
        let m = this.picked_up();
        assert(m == self.with_purpose(purpose));
        self.lemma_peek_value();
        self.lemma_peek_value_indifferent(purpose);
        if self.stack.len() > base && !self.expects_member_value() {
            assert(m.check_next() == (m, Outcome::Ready(true)));
        }
        assert(m.transfer_any() == m.transfer_value());
        assert(this.transfer_next().1 is Ready);
        assert(self.peek_value().1 is Ready);
        let (peeked, outcome) = self.peek_value();
        let value_type = outcome->Ready_0;
        self.lemma_transfer_value_step(base, started, value_type);
        peeked.lemma_read_for_transfer(purpose);
        match value_type {
            ValueType::Array => self.lemma_skip_start_as_transferred(
                base,
                started,
                StackValue::Array,
                actions,
                end,
            ),
            ValueType::Object => self.lemma_skip_start_as_transferred(
                base,
                started,
                StackValue::Object,
                actions,
                end,
            ),
            ValueType::String => self.lemma_skip_string_as_transferred(
                base,
                started,
                actions,
                end,
            ),
            _ => self.lemma_skip_simple_as_transferred(base, started, actions, end),
        }
    }

    /// As [`lemma_skip_as_transferred`](Self::lemma_skip_as_transferred), at the start of an array
    /// or object.
    proof fn lemma_skip_start_as_transferred(
        self,
        base: nat,
        started: bool,
        container: StackValue,
        actions: Seq<Transferred>,
        end: ReaderModel,
    )
        requires
            self.is_transferable(base, started),
            self.transferring(base, started).finishes_with(actions, end),
            self.peek_value().1 == Outcome::Ready(
                match container {
                    StackValue::Array => ValueType::Array,
                    StackValue::Object => ValueType::Object,
                },
            ),
        ensures
            self.skips_to(base, started, end),
        decreases actions.len(), 0int,
    {
        let transfer = TransferProgress { base, started };
        let purpose = Purpose { skip_base: None, transfer: Some(transfer), ongoing: None };
        let (peeked, outcome) = self.peek_value();
        let value_type = outcome->Ready_0;
        self.lemma_transfer_value_step(base, started, value_type);
        peeked.lemma_begin_for_transfer(container, purpose);
        assert(peeked.begin_container(container).1 is Ready);
        peeked.lemma_begin_container(container);
        peeked.lemma_begin_for(container, purpose);
        let inside = peeked.begin_container(container).0;
        let action = match container {
            StackValue::Array => Transferred::BeginArray,
            StackValue::Object => Transferred::BeginObject,
        };
        self.lemma_transfer_next_is(base, started, inside, action);
        self.lemma_skip_value_step(base, value_type);
        self.lemma_skip_goes_on(base, inside);
        inside.lemma_skip_as_transferred(base, true, actions.skip(1), end);
    }

    /// As [`lemma_skip_as_transferred`](Self::lemma_skip_as_transferred), at a number, boolean or
    /// null.
    proof fn lemma_skip_simple_as_transferred(
        self,
        base: nat,
        started: bool,
        actions: Seq<Transferred>,
        end: ReaderModel,
    )
        requires
            self.is_transferable(base, started),
            self.transferring(base, started).finishes_with(actions, end),
            self.peek_value().1 is Ready,
            !(self.peek_value().1->Ready_0 is Array),
            !(self.peek_value().1->Ready_0 is Object),
            !(self.peek_value().1->Ready_0 is String),
        ensures
            self.skips_to(base, started, end),
        decreases actions.len(), 0int,
    {
        let transfer = TransferProgress { base, started };
        let purpose = Purpose { skip_base: None, transfer: Some(transfer), ongoing: None };
        let (peeked, outcome) = self.peek_value();
        let value_type = outcome->Ready_0;
        self.lemma_transfer_value_step(base, started, value_type);
        peeked.lemma_read_for_transfer(purpose);
        let (read, action) = match value_type {
            ValueType::Number => {
                peeked.lemma_read_number(true);
                peeked.lemma_read_number_for(purpose);
                peeked.lemma_number_skipped();
                (
                    peeked.read_number(true).0,
                    Transferred::Number(peeked.read_number(true).1->Ready_0),
                )
            },
            ValueType::Boolean => {
                peeked.lemma_read_bool();
                peeked.lemma_read_literal_for(purpose);
                (peeked.read_bool().0, Transferred::Bool(peeked.read_bool().1->Ready_0))
            },
            _ => {
                peeked.lemma_read_null();
                peeked.lemma_read_literal_for(purpose);
                (peeked.read_null().0, Transferred::Null)
            },
        };
        self.lemma_transfer_next_is(base, started, read, action);
        assert(peeked.skip_typed(value_type) == (read, Outcome::Ready(())));
        self.lemma_skip_value_step(base, value_type);
        self.lemma_skip_goes_on(base, read);
        read.lemma_skip_as_transferred(base, true, actions.skip(1), end);
    }

    /// As [`lemma_skip_as_transferred`](Self::lemma_skip_as_transferred), at a string.
    proof fn lemma_skip_string_as_transferred(
        self,
        base: nat,
        started: bool,
        actions: Seq<Transferred>,
        end: ReaderModel,
    )
        requires
            self.is_transferable(base, started),
            self.transferring(base, started).finishes_with(actions, end),
            self.peek_value().1 == Outcome::Ready(ValueType::String),
        ensures
            self.skips_to(base, started, end),
        decreases actions.len(), 0int,
    {
        let peeked = self.peek_value().0;
        self.lemma_transfer_value_step(base, started, ValueType::String);
        let begun = peeked.consume_peeked().reading(Doing::TransferringString, true);
        assert(peeked.start_value(ValueType::String, false) == (
            peeked.consume_peeked(),
            Outcome::Ready(peeked.peeked->0),
        ));
        self.lemma_transfer_next_is(base, started, begun, Transferred::BeginString);
        let transferring = begun.transferring(base, true);
        let rest = actions.skip(1);
        transferring.lemma_transferred_string_ends(rest, end);
        let (pieces, last) = transferring.lemma_transfer_pieces(Seq::empty());
        transferring.lemma_finishes_behind(rest, end, pieces, last);
        let reading = peeked.consume_peeked().reading(Doing::ReadingString, true);
        assert(peeked.read_string(true) == reading.continue_string());
        peeked.lemma_read_string(true);
        peeked.lemma_string_skipped();
        let read = peeked.read_string(true).0;
        let closed = ReaderModel { scan: reading.scan.read_string().0, ..reading };
        assert(read == closed.string_closed().value_ended());
        last.lemma_behind_transferred_string(read, base);
        assert(peeked.skip_typed(ValueType::String) == (read, Outcome::Ready(())));
        self.lemma_skip_value_step(base, ValueType::String);
        self.lemma_skip_goes_on(base, read);
        let more = rest.skip(pieces.len() as int);
        assert(read.transferring(base, true).finishes_with(more, end));
        read.lemma_skip_as_transferred(base, true, more, end);
    }

    /// Actions which were carried out up to the last call make up a whole transfer.
    proof fn lemma_finishes(self, actions: Seq<Transferred>, last: ReaderModel, end: ReaderModel)
        requires
            self.transfers_to(actions, last),
            last.transfer_next() == (end, Outcome::Ready(Transferred::Finished)),
        ensures
            self.finishes_with(actions, end),
        decreases actions.len(),
    {
        if actions.len() > 0 {
            self.transfer_next().0.lemma_finishes(actions.skip(1), last, end);
        }
    }

    /// A value which can be transferred to a writer completely can be skipped as well, and both
    /// lead to the same state. `actions` are those which are carried out, and `last` is the state
    /// in front of the call with which the transfer finishes.
    pub proof fn law_transferred_value_can_be_skipped(
        self,
        actions: Seq<Transferred>,
        last: ReaderModel,
    )
        requires
            self.valid(),
            self.ongoing is None,
            self.misuse(Operation::TransferTo) is None,
            self.transfers_to(actions, last),
            last.transfer_next().1 == Outcome::Ready(Transferred::Finished),
        ensures
            self.skip_value() == (last.transfer_next().0, Outcome::Ready(())),
    {
        self.lemma_ready(Operation::TransferTo);
        assert(self.picked_up() == self);
        let base = self.stack.len();
        let end = last.transfer_next().0;
        self.lemma_finishes(actions, last, end);
        self.lemma_first_call();
        assert(self.transferring(base, false).finishes_with(actions, end));
        self.lemma_skip_as_transferred(base, false, actions, end);
        self.lemma_skip_value();
    }

    /// The first call for a transfer is like any other.
    proof fn lemma_first_call(self)
        requires
            self.is_free(),
        ensures
            self.goes_on_like(self.transferring(self.stack.len(), false)),
    {
        reveal(ReaderModel::transfer_any);
        let this = self.transferring(self.stack.len(), false);
        assert(self.picked_up().transfer_any() == this.picked_up().transfer_any());
    }
}

} // verus!
