//! Laws: only JSON documents are accepted.

use vstd::prelude::*;
use vstd::utf8::*;

use super::documents::{Json, Member};
use crate::ascii;
use crate::error::{Outcome, ValueType};
use crate::lookahead::{Ahead, NextChar, Pending};
use crate::model::{Doing, ReaderModel};
use crate::number::{NumberEnd, NumberProgress};
use crate::scan::{ScanState, StringEnd};
use crate::settings::ReaderSettings;
use crate::token::{Context, PeekedValue, StackValue};

verus! {

// ---- Characters and strings ----

/// A char which is not escaped is written as such.
proof fn lemma_plain_text(pending: Pending) -> (char: char)
    requires
        pending.string_char() is Plain,
    ensures
        ({
            let text = pending.bytes.take(pending.string_char().source_len());
            &&& super::documents::is_plain_char(text, char)
            &&& text == encode_scalar(char as u32)
        }),
{
    pending.lemma_string_char();
    let len = pending.string_char().source_len();
    let text = pending.bytes.take(len);
    let byte = pending.bytes[0];
    assert(text[0] == byte);
    let chars = decode_utf8(text);
    decode_utf8_encode_utf8(text);
    if len == 1 {
        assert(is_leading_byte_width_1(byte));
        assert(byte & 0x7F <= 0x7F) by (bit_vector);
    } else if len == 2 {
        assert(text =~= seq![pending.bytes[0], pending.bytes[1]]);
    } else if len == 3 {
        assert(text =~= seq![pending.bytes[0], pending.bytes[1], pending.bytes[2]]);
    } else {
        assert(text =~= seq![
            pending.bytes[0],
            pending.bytes[1],
            pending.bytes[2],
            pending.bytes[3],
        ]);
    }
    assert(valid_first_scalar(text));
    assert(length_of_first_scalar(text) == len);
    assert(pop_first_scalar(text) =~= Seq::<u8>::empty());
    reveal_with_fuel(decode_utf8, 2);
    let char = chars[0];
    assert(chars =~= seq![char]);
    reveal_with_fuel(encode_utf8, 2);
    assert(chars.drop_first() =~= Seq::<char>::empty());
    assert(encode_utf8(chars) =~= encode_scalar(char as u32));
    if len == 1 {
        assert(byte < 0x80u8 ==> byte & 0x7F == byte) by (bit_vector);
        let scalar = char as u32;
        assert(scalar <= 0x7F ==> (scalar & 0x7F) as u8 == scalar) by (bit_vector);
    }
    char
}

/// The digits of a Unicode escape sequence give its code unit.
proof fn lemma_code_unit_text(pending: Pending, distance: int)
    requires
        0 <= distance <= 8,
        pending.hex_number(distance as usize) is Value,
    ensures
        distance + 4 <= pending.bytes.len(),
        super::documents::code_unit(pending.bytes.subrange(distance, distance + 4)) == Some(
            pending.hex_number(distance as usize)->Value_0,
        ),
{
    let digits = pending.bytes.subrange(distance, distance + 4);
    assert(pending.ahead(distance) is Byte);
    assert(pending.ahead(distance + 1) is Byte);
    assert(pending.ahead(distance + 2) is Byte);
    assert(pending.ahead(distance + 3) is Byte);
    assert(digits[0] == pending.bytes[distance]);
    assert(digits[1] == pending.bytes[distance + 1]);
    assert(digits[2] == pending.bytes[distance + 2]);
    assert(digits[3] == pending.bytes[distance + 3]);
}

/// A char which is accepted within a string is written in one of the allowed ways.
proof fn lemma_accepted_char(pending: Pending) -> (char: char)
    requires
        pending.string_char() is Plain || pending.string_char() is Escaped,
    ensures
        ({
            let next = pending.string_char();
            &&& super::documents::is_char_text(pending.bytes.take(next.source_len()), char)
            &&& next.bytes(pending) == encode_scalar(char as u32)
        }),
{
    pending.lemma_string_char();
    match pending.string_char() {
        NextChar::Escaped { len, scalar } => {
            let char = scalar as char;
            let text = pending.bytes.take(len as int);
            assert(char as u32 == scalar);
            assert(text[0] == pending.bytes[0]);
            assert(pending.ahead(1) is Byte);
            assert(text[1] == pending.bytes[1]);
            if len == 2 {
                assert(super::documents::is_simple_escape(text, char));
            } else if len == 6 {
                lemma_code_unit_text(pending, 2);
                assert(text.skip(2) =~= pending.bytes.subrange(2, 6));
                assert(super::documents::is_unicode_escape(text, char));
            } else {
                lemma_code_unit_text(pending, 2);
                lemma_code_unit_text(pending, 8);
                let first = text.take(6);
                let second = text.skip(6);
                assert(pending.ahead(6) is Byte);
                assert(pending.ahead(7) is Byte);
                assert(second[0] == pending.bytes[6]);
                assert(second[1] == pending.bytes[7]);
                assert(first.skip(2) =~= pending.bytes.subrange(2, 6));
                assert(second.skip(2) =~= pending.bytes.subrange(8, 12));
                assert(super::documents::is_escaped_pair(text, char));
            }
            char
        },
        _ => lemma_plain_text(pending),
    }
}

/// A char in front of the content of a string makes up the content of a string.
proof fn lemma_content_behind_char(text: Seq<u8>, count: int, char: char, rest: Seq<char>)
    requires
        0 <= count <= text.len(),
        super::documents::is_char_text(text.take(count), char),
        super::documents::is_string_content(text.skip(count), rest),
    ensures
        super::documents::is_string_content(text, seq![char] + rest),
        encode_utf8(seq![char] + rest) == encode_scalar(char as u32) + encode_utf8(rest),
{
    let chars = seq![char] + rest;
    assert(chars.skip(1) =~= rest);
    assert(chars.drop_first() =~= rest);
    assert(chars[0] == char);
    assert(super::documents::is_char_text(text.take(count), chars[0]));
}

/// The next char of a string is read.
proof fn lemma_accepted_step(scan: ScanState) -> (char: char)
    requires
        scan.string_step().1 is None,
        scan.value is Some,
    ensures
        ({
            let next = scan.string_step().0;
            let count = scan.pending.bytes.len() - next.pending.bytes.len();
            &&& 0 < count <= scan.pending.bytes.len()
            &&& super::documents::is_char_text(scan.pending.bytes.take(count), char)
            &&& next.is_behind(
                scan.with_value(Some(scan.value->0 + encode_scalar(char as u32))),
                count,
            )
        }),
{
    scan.pending.lemma_string_char();
    lemma_accepted_char(scan.pending)
}

/// What is accepted as content of a string represents the chars which are read.
#[verifier::rlimit(40)]
proof fn lemma_accepted_string(scan: ScanState) -> (chars: Seq<char>)
    requires
        scan.read_string().1 == StringEnd::Quote,
        scan.value is Some,
    ensures
        ({
            let next = scan.read_string().0;
            let len = scan.pending.bytes.len() - next.pending.bytes.len();
            &&& 0 <= len < scan.pending.bytes.len()
            &&& super::documents::is_string_content(scan.pending.bytes.take(len), chars)
            &&& scan.pending.bytes[len] == ascii::QUOTE
            &&& next.is_behind(scan.with_value(Some(scan.value->0 + encode_utf8(chars))), len)
        }),
    decreases scan.pending.bytes.len(),
{
    scan.lemma_string_step();
    let (next, end) = scan.string_step();
    let bytes = scan.pending.bytes;
    if end is Some {
        let chars = Seq::<char>::empty();
        assert(bytes.skip(0) =~= bytes);
        assert(scan.value->0 + encode_utf8(chars) =~= scan.value->0);
        chars
    } else {
        let char = lemma_accepted_step(scan);
        let count = bytes.len() - next.pending.bytes.len();
        let rest = lemma_accepted_string(next);
        let behind = next.read_string().0;
        assert(scan.read_string() == next.read_string());
        let len = bytes.len() - behind.pending.bytes.len();
        let text = bytes.take(len);
        assert(text.take(count) =~= bytes.take(count));
        assert(text.skip(count) =~= bytes.skip(count).take(len - count));
        lemma_content_behind_char(text, count, char, rest);
        assert(scan.value->0 + encode_scalar(char as u32) + encode_utf8(rest) =~= scan.value->0
            + encode_utf8(seq![char] + rest));
        assert(bytes.skip(count).skip(len - count) =~= bytes.skip(len));
        seq![char] + rest
    }
}

// ---- Gaps and tokens ----

impl PeekedValue {
    /// The bytes which are consumed while peeking at the token.
    pub open spec fn spelling(self) -> Seq<u8> {
        match self {
            PeekedValue::ObjectStart => seq![ascii::OPEN_BRACE],
            PeekedValue::ObjectEnd => seq![ascii::CLOSE_BRACE],
            PeekedValue::ArrayStart => seq![ascii::OPEN_BRACKET],
            PeekedValue::ArrayEnd => seq![ascii::CLOSE_BRACKET],
            PeekedValue::StringStart => seq![ascii::QUOTE],
            PeekedValue::NameStart => seq![ascii::QUOTE],
            PeekedValue::NumberStart => Seq::empty(),
            literal => literal.text(),
        }
    }
}

/// A literal is complete only if all of its bytes were found.
proof fn lemma_complete_literal(pending: Pending, text: Seq<u8>, at: nat)
    requires
        pending.literal(text, at) is Complete,
        at <= text.len(),
    ensures
        text.len() <= pending.bytes.len() || at == text.len(),
        forall|i: int| at <= i < text.len() ==> pending.bytes[i] == #[trigger] text[i],
    decreases text.len() - at,
{
    if at < text.len() {
        lemma_complete_literal(pending, text, at + 1);
    }
}

/// A token which is found is there.
proof fn lemma_found_token(pending: Pending, byte: u8, context: Context)
    requires
        pending.ahead(0) == Ahead::Byte(byte),
        pending.token(byte, context) is Found,
    ensures
        ({
            let token = pending.token(byte, context)->Found_0;
            &&& token.len() <= pending.bytes.len()
            &&& token.spelling().len() == token.len()
            &&& pending.bytes.take(token.len() as int) == token.spelling()
            &&& byte != ascii::COMMA
        }),
{
    pending.lemma_token(byte, context);
    let token = pending.token(byte, context)->Found_0;
    if token.is_literal() {
        lemma_complete_literal(pending, token.text(), 0);
    }
    assert(pending.bytes.take(token.len() as int) =~= token.spelling());
}

/// Whether the text starts with the separator, with gaps around it up to `start`.
pub open spec fn is_led_by(
    text: Seq<u8>,
    separator: u8,
    start: int,
    settings: ReaderSettings,
) -> bool {
    exists|i: int|
        0 <= i < start && #[trigger] super::documents::is_separated_until(
            text,
            separator,
            i,
            start,
            settings,
        )
}

impl ReaderModel {
    /// Whether a token was peeked at which is there: behind a gap, and behind a comma or colon if
    /// `separator` is present.
    pub open spec fn has_peeked(
        self,
        next: ReaderModel,
        token: PeekedValue,
        start: int,
        separator: Option<u8>,
    ) -> bool {
        let bytes = self.scan.pending.bytes;
        &&& 0 <= start
        &&& start + token.len() <= bytes.len()
        &&& self.peeks_at(next, token, start + token.len())
        &&& bytes.subrange(start, start + token.len()) == token.spelling()
        &&& token.spelling().len() == token.len()
        &&& match separator {
            None => super::gaps::is_gap(bytes.take(start), self.settings),
            Some(separator) => is_led_by(bytes, separator, start, self.settings),
        }
    }

    /// A token which is found by peeking starts with the next byte.
    proof fn lemma_peeked_token(self, byte: u8, token: PeekedValue)
        requires
            self.scan.pending.ahead(0) == Ahead::Byte(byte),
            self.peek_token(byte).1 == Outcome::Ready(Some(token)),
        ensures
            token.len() <= self.scan.pending.bytes.len(),
            self.scan.pending.bytes.take(token.len() as int) == token.spelling(),
            token.spelling().len() == token.len(),
            self.peek_token(byte).0 == (ReaderModel {
                scan: self.scan.dropped(token.len() as int),
                peeked: Some(token),
                colon_read: false,
                comma: None,
                ..self
            }),
            if self.comma is Some {
                !token.is_end() || self.settings.allow_trailing_comma
            } else {
                token.is_end() || !self.can_have_comma()
            },
    {
        lemma_found_token(self.scan.pending, byte, self.context());
    }

    /// A token which is found by peeking, with a comma in front of it.
    proof fn lemma_peeked_behind_comma(self, token: PeekedValue) -> (start: int)
        requires
            self.scan.gap is Outside,
            self.comma is Some,
            self.peek_after_comma().1 == Outcome::Ready(Some(token)),
        ensures
            ({
                let next = self.peek_after_comma().0;
                let at = ReaderModel { colon_read: false, comma: None, ..self };
                &&& at.has_peeked(next, token, start, None)
                &&& !token.is_end() || self.settings.allow_trailing_comma
            }),
    {
        let bytes = self.scan.pending.bytes;
        super::gaps::lemma_skipped_gap(self.scan, self.settings);
        let (scan, end) = self.scan.skip_gap(self.settings.allow_comments);
        let start = bytes.len() - scan.pending.bytes.len();
        let byte = end->Byte_0;
        let found = ReaderModel { scan, ..self };
        found.lemma_peeked_token(byte, token);
        assert(self.peek_after_comma() == found.peek_token(byte));
        assert(bytes.skip(start).take(token.len() as int) =~= bytes.subrange(
            start,
            start + token.len(),
        ));
        assert(bytes.skip(start).skip(token.len() as int) =~= bytes.skip(start + token.len()));
        start
    }

    /// Whether there may be a separator, or none, in front of the token which is next.
    pub open spec fn may_follow(self, token: PeekedValue, separator: Option<u8>) -> bool {
        if self.expects_member_value() {
            separator == Some(ascii::COLON)
        } else {
            match separator {
                None => token.is_end() || !self.can_have_comma(),
                Some(separator) => {
                    &&& separator == ascii::COMMA
                    &&& self.can_have_comma()
                    &&& !token.is_end() || self.settings.allow_trailing_comma
                },
            }
        }
    }

    /// A token which is found by peeking, in front of which there may be a comma.
    #[verifier::rlimit(40)]
    proof fn lemma_peeked_separated(self, token: PeekedValue) -> (result: (int, Option<u8>))
        requires
            self.comma is None,
            self.scan.gap is Outside,
            self.peek_separated().1 == Outcome::Ready(Some(token)),
        ensures
            ({
                let (start, separator) = result;
                let next = self.peek_separated().0;
                &&& (ReaderModel { colon_read: false, ..self }).has_peeked(
                    next,
                    token,
                    start,
                    separator,
                )
                &&& match separator {
                    None => token.is_end() || !self.can_have_comma(),
                    Some(separator) => {
                        &&& separator == ascii::COMMA
                        &&& self.can_have_comma()
                        &&& !token.is_end() || self.settings.allow_trailing_comma
                    },
                }
            }),
    {
        let bytes = self.scan.pending.bytes;
        super::gaps::lemma_skipped_gap(self.scan, self.settings);
        let (scan, end) = self.scan.skip_gap(self.settings.allow_comments);
        let len = bytes.len() - scan.pending.bytes.len();
        let byte = end->Byte_0;
        if byte != ascii::COMMA {
            let found = ReaderModel { scan, ..self };
            assert(self.peek_separated() == found.peek_token(byte));
            found.lemma_peeked_token(byte, token);
            assert(bytes.skip(len).take(token.len() as int) =~= bytes.subrange(
                len,
                len + token.len(),
            ));
            assert(bytes.skip(len).skip(token.len() as int) =~= bytes.skip(len + token.len()));
            (len, None)
        } else {
            let behind = ReaderModel {
                scan: scan.consumed(1, 1),
                comma: Some(scan.spot),
                ..self
            };
            assert(self.peek_separated() == behind.peek_after_comma());
            let count = behind.lemma_peeked_behind_comma(token);
            let start = len + 1 + count;
            let rest = behind.scan.pending.bytes;
            assert(rest =~= bytes.skip(len + 1));
            assert(rest.take(count) =~= bytes.subrange(len + 1, start));
            assert(rest.subrange(count, count + token.len()) =~= bytes.subrange(
                start,
                start + token.len(),
            ));
            assert(rest.skip(count + token.len()) =~= bytes.skip(start + token.len()));
            assert(super::documents::is_separated_until(
                bytes,
                ascii::COMMA,
                len,
                start,
                self.settings,
            ));
            assert(is_led_by(bytes, ascii::COMMA, start, self.settings));
            (start, Some(ascii::COMMA))
        }
    }

    /// A token which is found by peeking is there.
    proof fn lemma_peeked(self, token: PeekedValue) -> (result: (int, Option<u8>))
        requires
            self.at_token(),
            self.peek_internal().1 == Outcome::Ready(token),
        ensures
            self.has_peeked(self.peek_internal().0, token, result.0, result.1),
            self.may_follow(token, result.1),
    {
        if self.expects_member_value() {
            let bytes = self.scan.pending.bytes;
            super::gaps::lemma_skipped_gap(self.scan, self.settings);
            let (scan, end) = self.scan.skip_gap(self.settings.allow_comments);
            let len = bytes.len() - scan.pending.bytes.len();
            let (next, _) = self.after_name();
            let (count, _) = next.lemma_peeked_separated(token);
            let start = len + 1 + count;
            let behind = next.scan.pending.bytes;
            assert(behind =~= bytes.skip(len + 1));
            assert(behind.take(count) =~= bytes.subrange(len + 1, start));
            assert(behind.subrange(count, count + token.len()) =~= bytes.subrange(
                start,
                start + token.len(),
            ));
            assert(behind.skip(count + token.len()) =~= bytes.skip(start + token.len()));
            assert(super::documents::is_separated_until(
                bytes,
                ascii::COLON,
                len,
                start,
                self.settings,
            ));
            assert(is_led_by(bytes, ascii::COLON, start, self.settings));
            assert(self.peeks_at(self.peek_internal().0, token, start + token.len()));
            (start, Some(ascii::COLON))
        } else {
            self.lemma_peeked_separated(token)
        }
    }
}

// ---- Values ----

impl ReaderModel {
    /// Whether the start of a value was peeked at, which can be read then.
    pub open spec fn is_at_start(self) -> bool {
        &&& self.can_peek()
        &&& !self.expects_member_name
        &&& self.skip_base is None
        &&& self.transfer is None
        &&& self.ongoing is None
        &&& self.peeked matches Some(token) && !token.is_end() && !token.is_for_name()
    }

    /// Whether the text which was consumed between two states represents the value, behind a token
    /// which had been peeked at before.
    pub open spec fn has_read(self, next: ReaderModel, value: Json) -> bool {
        let bytes = self.scan.pending.bytes;
        let len = bytes.len() - next.scan.pending.bytes.len();
        &&& self.peeked == Some(value.token())
        &&& 0 <= len <= bytes.len()
        &&& super::documents::is_value_text(
            value.token().spelling() + bytes.take(len),
            value,
            self.settings,
        )
        &&& self.reads_to(next, len)
        &&& value.is_allowed(self.settings, self.stack.len())
    }

    /// Peeking again finds the same token.
    proof fn lemma_peek_start(self)
        requires
            self.is_at_start(),
        ensures
            self.peek() == (self, Outcome::Ready(self.peeked->0.value_type())),
            self.picked_up() == self,
    {
        assert(self.picked_up() == self);
    }

    /// What is accepted as literal is one.
    proof fn lemma_accepted_literal(self, value: Json, fuel: nat)
        requires
            self.is_at_start(),
            fuel > 0,
            self.peeked->0.is_literal(),
            self.read_json(fuel).1 == Outcome::Ready(value),
        ensures
            self.has_read(self.read_json(fuel).0, value),
    {
        self.lemma_peek_start();
        self.lemma_read_null();
        self.lemma_read_bool();
        let next = self.read_json(fuel).0;
        let bytes = self.scan.pending.bytes;
        assert(bytes.skip(0) =~= bytes);
        assert(value.token() == self.peeked->0);
        let token = value.token();
        assert(token.spelling() + bytes.take(0) =~= token.text());
        assert(next.scan.pending == self.scan.pending.after(0));
    }

    /// What is accepted as number is one.
    proof fn lemma_accepted_number(self, value: Json, fuel: nat)
        requires
            self.is_at_start(),
            fuel > 0,
            self.peeked == Some(PeekedValue::NumberStart),
            self.read_json(fuel).1 == Outcome::Ready(value),
        ensures
            self.has_read(self.read_json(fuel).0, value),
    {
        self.lemma_peek_start();
        self.lemma_read_number(true);
        let started = self.consume_peeked();
        assert(self.start_value(ValueType::Number, false) == (
            started,
            Outcome::Ready(PeekedValue::NumberStart),
        ));
        let progress = NumberProgress::start();
        let reading = started.reading(Doing::ReadingNumber(progress), true);
        reading.scan.lemma_read_number_consumes(progress);
        reading.scan.lemma_read_number(progress);
        let (scan, advanced, end) = reading.scan.read_number(progress);
        let bytes = self.scan.pending.bytes;
        let number = bytes.take(advanced.len as int);
        assert(reading.scan.pending == self.scan.pending);
        assert(Seq::<u8>::empty() + number =~= number);
        assert(end == NumberEnd::Complete);
        super::numbers::law_number_grammar(number);
        super::numbers::law_number_restriction(number);
        assert(valid_utf8(number));
        decode_utf8_encode_utf8(number);
        assert(value == Json::Number(decode_utf8(number)));
        let next = self.read_json(fuel).0;
        assert(next.scan.pending == self.scan.pending.after(advanced.len as int));
    }

    /// What is accepted as string is one.
    proof fn lemma_accepted_string_value(self, value: Json, fuel: nat)
        requires
            self.is_at_start(),
            fuel > 0,
            self.peeked == Some(PeekedValue::StringStart),
            self.read_json(fuel).1 == Outcome::Ready(value),
        ensures
            self.has_read(self.read_json(fuel).0, value),
    {
        self.lemma_peek_start();
        self.lemma_read_string(true);
        let started = self.consume_peeked();
        assert(self.start_value(ValueType::String, false) == (
            started,
            Outcome::Ready(PeekedValue::StringStart),
        ));
        let reading = started.reading(Doing::ReadingString, true);
        let chars = lemma_accepted_string(reading.scan);
        let bytes = self.scan.pending.bytes;
        let behind = reading.scan.read_string().0;
        let len = bytes.len() - behind.pending.bytes.len();
        assert(Seq::<u8>::empty() + encode_utf8(chars) =~= encode_utf8(chars));
        encode_utf8_decode_utf8(chars);
        assert(value == Json::String(chars));
        let next = self.read_json(fuel).0;
        assert(bytes.skip(len).skip(1) =~= bytes.skip(len + 1));
        assert(next.scan.pending == self.scan.pending.after(len + 1));
        let text = seq![ascii::QUOTE] + bytes.take(len + 1);
        assert(text.subrange(1, text.len() - 1) =~= bytes.take(len));
        assert(text.last() == bytes[len]);
    }
}

// ---- Arrays and objects ----

/// The separator is there as well when only the start of the text is regarded.
proof fn lemma_led_within(
    text: Seq<u8>,
    len: int,
    separator: u8,
    start: int,
    settings: ReaderSettings,
)
    requires
        0 <= start <= len <= text.len(),
        is_led_by(text, separator, start, settings),
    ensures
        is_led_by(text.take(len), separator, start, settings),
{
    let i = choose|i: int|
        0 <= i < start && #[trigger] super::documents::is_separated_until(
            text,
            separator,
            i,
            start,
            settings,
        );
    let within = text.take(len);
    assert(within.take(i) =~= text.take(i));
    assert(within.subrange(i + 1, start) =~= text.subrange(i + 1, start));
    assert(super::documents::is_separated_until(within, separator, i, start, settings));
}

/// Whether the text within an array represents the items from an index on.
pub open spec fn is_rest_of_items(
    text: Seq<u8>,
    items: Seq<Json>,
    from: int,
    settings: ReaderSettings,
) -> bool {
    if from == 0 {
        super::documents::is_items_text(text, items, settings)
    } else {
        super::documents::is_more_items_text(text, items, from, settings)
    }
}

/// An item in front of the following items.
proof fn lemma_items_behind_item(
    text: Seq<u8>,
    items: Seq<Json>,
    from: int,
    start: int,
    end: int,
    settings: ReaderSettings,
)
    requires
        0 <= from < items.len(),
        0 <= start <= end <= text.len(),
        super::documents::is_value_text(text.subrange(start, end), items[from], settings),
        super::documents::is_more_items_text(text.skip(end), items, from + 1, settings),
        if from == 0 {
            super::gaps::is_gap(text.take(start), settings)
        } else {
            is_led_by(text, ascii::COMMA, start, settings)
        },
    ensures
        is_rest_of_items(text, items, from, settings),
{
    if from == 0 {
        assert(super::documents::is_gap_until(text, start, end, settings));
    } else {
        let i = choose|i: int|
            0 <= i < start && #[trigger] super::documents::is_separated_until(
                text,
                ascii::COMMA,
                i,
                start,
                settings,
            );
        assert(super::documents::is_separated_until(text, ascii::COMMA, i, start, settings));
        assert(super::documents::is_value_text(text.subrange(start, end), items[from], settings));
    }
}

impl ReaderModel {
    /// Whether the remaining items were read up to the end of the array between two states; `items`
    /// are all items of the array, of which `from` had been read before.
    pub open spec fn has_read_items(self, next: ReaderModel, items: Seq<Json>, from: int) -> bool {
        let bytes = self.scan.pending.bytes;
        let len = bytes.len() - next.scan.pending.bytes.len();
        &&& 0 <= from <= items.len()
        &&& 1 <= len <= bytes.len()
        &&& bytes[len - 1] == ascii::CLOSE_BRACKET
        &&& is_rest_of_items(bytes.take(len - 1), items, from, self.settings)
        &&& self.leaves_to(next, len)
        &&& forall|i: int|
            from <= i < items.len() ==> (#[trigger] items[i]).is_allowed(
                self.settings,
                self.stack.len(),
            )
    }

    /// What is found to be next in an array or object is there.
    proof fn lemma_found_next(self, found: bool) -> (result: (PeekedValue, int, Option<u8>))
        requires
            self.is_waiting(),
            self.stack.len() > 0,
            !self.expects_member_value(),
            self.has_next().1 == Outcome::Ready(found),
        ensures
            ({
                let (token, start, separator) = result;
                let next = self.has_next().0;
                &&& self.has_peeked(next, token, start, separator)
                &&& self.may_follow(token, separator)
                &&& found == !token.is_end()
                &&& next.can_peek()
                &&& next.peeked == Some(token)
                &&& token.is_for_name() == self.expects_member_name
                &&& next == (ReaderModel { scan: next.scan, peeked: next.peeked, ..self })
            }),
    {
        reveal(ReaderModel::has_next);
        assert(self.picked_up() == self);
        self.lemma_check_next();
        let token = self.peek_internal().1->Ready_0;
        let (start, separator) = self.lemma_peeked(token);
        (token, start, separator)
    }

    /// What stands in front of the end of an array or object may stand there.
    proof fn lemma_end_text(
        self,
        next: ReaderModel,
        token: PeekedValue,
        start: int,
        separator: Option<u8>,
    )
        requires
            self.has_peeked(next, token, start, separator),
            self.may_follow(token, separator),
            !self.expects_member_value(),
            token.is_end(),
        ensures
            self.is_empty ==> super::gaps::is_gap(
                self.scan.pending.bytes.take(start),
                self.settings,
            ),
            super::documents::is_end_gap(self.scan.pending.bytes.take(start), self.settings),
            self.scan.pending.bytes[start] == token.spelling()[0],
    {
        let bytes = self.scan.pending.bytes;
        assert(bytes.subrange(start, start + 1)[0] == bytes[start]);
        if separator is Some {
            lemma_led_within(bytes, start, ascii::COMMA, start, self.settings);
            let text = bytes.take(start);
            let i = choose|i: int|
                0 <= i < start && #[trigger] super::documents::is_separated_until(
                    text,
                    ascii::COMMA,
                    i,
                    start,
                    self.settings,
                );
            assert(super::documents::is_separated_until(
                text,
                ascii::COMMA,
                i,
                text.len() as int,
                self.settings,
            ));
        }
    }

    /// What is accepted as the rest of an array is one: at its end.
    proof fn lemma_accepted_array_end(self, items: Seq<Json>, value: Json, fuel: nat)
        requires
            self.is_waiting(),
            self.is_in_array(),
            !self.expects_member_name,
            fuel > 0,
            self.is_empty <==> items.len() == 0,
            self.has_next().1 == Outcome::Ready(false),
            self.read_json_items(items, fuel).1 == Outcome::Ready(value),
        ensures
            value == Json::Array(items),
            self.has_read_items(self.read_json_items(items, fuel).0, items, items.len() as int),
    {
        let (token, start, separator) = self.lemma_found_next(false);
        let next = self.has_next().0;
        assert(next.picked_up() == next);
        next.lemma_end_container(StackValue::Array);
        let behind = self.read_json_items(items, fuel).0;
        let bytes = self.scan.pending.bytes;
        assert(behind.scan.pending == next.scan.pending);
        self.lemma_end_text(next, token, start, separator);
        assert(bytes[start] == ascii::CLOSE_BRACKET);
        assert(bytes.len() - behind.scan.pending.bytes.len() == start + 1);
        assert(is_rest_of_items(bytes.take(start), items, items.len() as int, self.settings));
    }

    /// The text of an item which was read behind a token.
    proof fn lemma_item_text(
        self,
        next: ReaderModel,
        token: PeekedValue,
        start: int,
        behind: ReaderModel,
        value: Json,
    )
        requires
            0 <= start,
            start + token.len() <= self.scan.pending.bytes.len(),
            self.peeks_at(next, token, start + token.len()),
            self.scan.pending.bytes.subrange(start, start + token.len()) == token.spelling(),
            token.spelling().len() == token.len(),
            next.has_read(behind, value),
        ensures
            ({
                let bytes = self.scan.pending.bytes;
                let end = bytes.len() - behind.scan.pending.bytes.len();
                &&& start <= end <= bytes.len()
                &&& super::documents::is_value_text(
                    bytes.subrange(start, end),
                    value,
                    self.settings,
                )
                &&& behind.scan.pending == self.scan.pending.after(end)
            }),
    {
        let bytes = self.scan.pending.bytes;
        let rest = next.scan.pending.bytes;
        let len = rest.len() - behind.scan.pending.bytes.len();
        let end = start + token.len() + len;
        assert(rest =~= bytes.skip(start + token.len()));
        assert(token.spelling() + rest.take(len) =~= bytes.subrange(start, end));
        assert(bytes.skip(start + token.len()).skip(len) =~= bytes.skip(end));
    }

    /// What is accepted as value is one.
    proof fn lemma_accepted_value(self, value: Json, fuel: nat)
        requires
            self.is_at_start(),
            self.read_json(fuel).1 == Outcome::Ready(value),
        ensures
            self.has_read(self.read_json(fuel).0, value),
        decreases fuel,
    {
        let token = self.peeked->0;
        if token.is_literal() {
            self.lemma_accepted_literal(value, fuel);
        } else if token is NumberStart {
            self.lemma_accepted_number(value, fuel);
        } else if token is StringStart {
            self.lemma_accepted_string_value(value, fuel);
        } else if token is ArrayStart {
            self.lemma_accepted_start(StackValue::Array, value, fuel);
            let inside = self.begin_array().0;
            inside.lemma_accepted_items(Seq::empty(), value, (fuel - 1) as nat);
            let next = inside.read_json_items(Seq::empty(), (fuel - 1) as nat).0;
            self.lemma_array_read(inside, next, value->Array_0);
        } else {
            self.lemma_accepted_start(StackValue::Object, value, fuel);
            let inside = self.begin_object().0;
            inside.lemma_accepted_members(Seq::empty(), value, (fuel - 1) as nat);
            let next = inside.read_json_members(Seq::empty(), (fuel - 1) as nat).0;
            self.lemma_object_read(inside, next, value->Object_0);
        }
    }

    /// An array or object is entered in order to read it.
    proof fn lemma_accepted_start(self, container: StackValue, value: Json, fuel: nat)
        requires
            self.is_at_start(),
            fuel > 0,
            self.peeked == Some(
                match container {
                    StackValue::Array => PeekedValue::ArrayStart,
                    StackValue::Object => PeekedValue::ObjectStart,
                },
            ),
            self.read_json(fuel).1 == Outcome::Ready(value),
        ensures
            ({
                let (inside, outcome) = self.begin_container(container);
                &&& outcome == Outcome::Ready(())
                &&& inside.is_waiting()
                &&& inside.settings == self.settings
                &&& inside.stack == self.stack.push(container)
                &&& inside.is_empty
                &&& inside.expects_member_name == (container is Object)
                &&& inside.scan.pending == self.scan.pending
                &&& !self.has_max_depth()
                &&& match container {
                    StackValue::Array => {
                        &&& self.begin_array().0 == inside
                        &&& self.read_json(fuel) == inside.read_json_items(
                            Seq::empty(),
                            (fuel - 1) as nat,
                        )
                    },
                    StackValue::Object => {
                        &&& self.begin_object().0 == inside
                        &&& self.read_json(fuel) == inside.read_json_members(
                            Seq::empty(),
                            (fuel - 1) as nat,
                        )
                    },
                }
            }),
    {
        self.lemma_peek_start();
        self.lemma_begin_container(container);
    }

    /// An array was read behind its start.
    proof fn lemma_array_read(self, inside: ReaderModel, next: ReaderModel, items: Seq<Json>)
        requires
            self.peeked == Some(PeekedValue::ArrayStart),
            inside.scan.pending == self.scan.pending,
            inside.stack == self.stack.push(StackValue::Array),
            inside.settings == self.settings,
            !self.has_max_depth(),
            inside.has_read_items(next, items, 0),
        ensures
            self.has_read(next, Json::Array(items)),
    {
        let bytes = self.scan.pending.bytes;
        let len = bytes.len() - next.scan.pending.bytes.len();
        let text = seq![ascii::OPEN_BRACKET] + bytes.take(len);
        assert(text.subrange(1, text.len() - 1) =~= bytes.take(len - 1));
        assert(text.last() == bytes[len - 1]);
        assert(next.stack =~= self.stack);
    }

    /// An object was read behind its start.
    proof fn lemma_object_read(self, inside: ReaderModel, next: ReaderModel, members: Seq<Member>)
        requires
            self.peeked == Some(PeekedValue::ObjectStart),
            inside.scan.pending == self.scan.pending,
            inside.stack == self.stack.push(StackValue::Object),
            inside.settings == self.settings,
            !self.has_max_depth(),
            inside.has_read_members(next, members, 0),
        ensures
            self.has_read(next, Json::Object(members)),
    {
        let bytes = self.scan.pending.bytes;
        let len = bytes.len() - next.scan.pending.bytes.len();
        let text = seq![ascii::OPEN_BRACE] + bytes.take(len);
        assert(text.subrange(1, text.len() - 1) =~= bytes.take(len - 1));
        assert(text.last() == bytes[len - 1]);
        assert(next.stack =~= self.stack);
    }

    /// What is accepted as the rest of an array is one.
    proof fn lemma_accepted_items(self, items: Seq<Json>, value: Json, fuel: nat)
        requires
            self.is_waiting(),
            self.is_in_array(),
            !self.expects_member_name,
            self.is_empty <==> items.len() == 0,
            self.read_json_items(items, fuel).1 == Outcome::Ready(value),
        ensures
            value is Array,
            value->Array_0.len() >= items.len(),
            value->Array_0.take(items.len() as int) == items,
            self.has_read_items(
                self.read_json_items(items, fuel).0,
                value->Array_0,
                items.len() as int,
            ),
        decreases fuel,
    {
        if self.has_next().1 == Outcome::Ready(false) {
            self.lemma_accepted_array_end(items, value, fuel);
            assert(items.take(items.len() as int) =~= items);
        } else {
            let from = items.len() as int;
            let rest_fuel = (fuel - 1) as nat;
            let (token, start, separator) = self.lemma_found_next(true);
            let next = self.has_next().0;
            let (behind, outcome) = next.read_json(rest_fuel);
            let item = outcome->Ready_0;
            next.lemma_accepted_value(item, rest_fuel);
            self.lemma_item_text(next, token, start, behind, item);
            behind.lemma_accepted_items(items.push(item), value, rest_fuel);
            let last = self.read_json_items(items, fuel).0;
            assert(last == behind.read_json_items(items.push(item), rest_fuel).0);
            let all = value->Array_0;
            assert(all.take(from + 1)[from] == item);
            assert(all.take(from) =~= all.take(from + 1).take(from));
            assert(items.push(item).take(from) =~= items);
            self.lemma_items_joined(behind, last, all, from, start);
        }
    }

    /// An item and the following items were read.
    proof fn lemma_items_joined(
        self,
        behind: ReaderModel,
        last: ReaderModel,
        items: Seq<Json>,
        from: int,
        start: int,
    )
        requires
            0 <= from < items.len(),
            behind.has_read_items(last, items, from + 1),
            behind.stack == self.stack,
            behind.settings == self.settings,
            items[from].is_allowed(self.settings, self.stack.len()),
            ({
                let bytes = self.scan.pending.bytes;
                let end = bytes.len() - behind.scan.pending.bytes.len();
                &&& 0 <= start <= end <= bytes.len()
                &&& super::documents::is_value_text(
                    bytes.subrange(start, end),
                    items[from],
                    self.settings,
                )
                &&& behind.scan.pending == self.scan.pending.after(end)
                &&& if from == 0 {
                    super::gaps::is_gap(bytes.take(start), self.settings)
                } else {
                    is_led_by(bytes, ascii::COMMA, start, self.settings)
                }
            }),
        ensures
            self.has_read_items(last, items, from),
    {
        let bytes = self.scan.pending.bytes;
        let end = bytes.len() - behind.scan.pending.bytes.len();
        let len = bytes.len() - last.scan.pending.bytes.len();
        let text = bytes.take(len - 1);
        assert(text.subrange(start, end) =~= bytes.subrange(start, end));
        assert(text.skip(end) =~= bytes.skip(end).take(len - 1 - end));
        if from == 0 {
            assert(text.take(start) =~= bytes.take(start));
        } else {
            lemma_led_within(bytes, len - 1, ascii::COMMA, start, self.settings);
        }
        lemma_items_behind_item(text, items, from, start, end, self.settings);
        assert(bytes.skip(end)[len - 1 - end] == bytes[len - 1]);
        assert(bytes.skip(end).skip(len - end) =~= bytes.skip(len));
    }

    /// What is accepted as the rest of an object is one.
    proof fn lemma_accepted_members(self, members: Seq<Member>, value: Json, fuel: nat)
        requires
            self.is_waiting(),
            self.is_in_object(),
            self.expects_member_name,
            self.is_empty <==> members.len() == 0,
            self.read_json_members(members, fuel).1 == Outcome::Ready(value),
        ensures
            value is Object,
            value->Object_0.len() >= members.len(),
            value->Object_0.take(members.len() as int) == members,
            self.has_read_members(
                self.read_json_members(members, fuel).0,
                value->Object_0,
                members.len() as int,
            ),
        decreases fuel,
    {
        if self.has_next().1 == Outcome::Ready(false) {
            self.lemma_accepted_object_end(members, value, fuel);
            assert(members.take(members.len() as int) =~= members);
        } else {
            let from = members.len() as int;
            let rest_fuel = (fuel - 1) as nat;
            let (token, start, separator) = self.lemma_found_next(true);
            let next = self.has_next().0;
            let (named, named_outcome) = next.next_name();
            let name = named_outcome->Ready_0;
            next.lemma_accepted_name(name);
            let (behind, outcome) = named.read_json(rest_fuel);
            let member = Member { name, value: outcome->Ready_0 };
            named.lemma_read_start(rest_fuel);
            let (at_value, at_outcome) = named.peek_internal();
            at_value.lemma_accepted_value(member.value, rest_fuel);
            let (value_start, _) = named.lemma_peeked(at_outcome->Ready_0);
            self.lemma_member_read(next, named, at_value, behind, member, start, value_start);
            behind.lemma_accepted_members(members.push(member), value, rest_fuel);
            let last = self.read_json_members(members, fuel).0;
            assert(last == behind.read_json_members(members.push(member), rest_fuel).0);
            let all = value->Object_0;
            assert(all.take(from + 1)[from] == member);
            assert(all.take(from) =~= all.take(from + 1).take(from));
            assert(members.push(member).take(from) =~= members);
            self.lemma_members_joined(behind, last, all, from, start);
        }
    }

    /// What is accepted as the rest of an object is one: at its end.
    proof fn lemma_accepted_object_end(self, members: Seq<Member>, value: Json, fuel: nat)
        requires
            self.is_waiting(),
            self.is_in_object(),
            self.expects_member_name,
            fuel > 0,
            self.is_empty <==> members.len() == 0,
            self.has_next().1 == Outcome::Ready(false),
            self.read_json_members(members, fuel).1 == Outcome::Ready(value),
        ensures
            value == Json::Object(members),
            self.has_read_members(
                self.read_json_members(members, fuel).0,
                members,
                members.len() as int,
            ),
    {
        let (token, start, separator) = self.lemma_found_next(false);
        let next = self.has_next().0;
        assert(next.picked_up() == next);
        next.lemma_end_container(StackValue::Object);
        let behind = self.read_json_members(members, fuel).0;
        let bytes = self.scan.pending.bytes;
        assert(behind.scan.pending == next.scan.pending);
        self.lemma_end_text(next, token, start, separator);
        assert(bytes[start] == ascii::CLOSE_BRACE);
        assert(bytes.len() - behind.scan.pending.bytes.len() == start + 1);
        assert(is_rest_of_members(bytes.take(start), members, members.len() as int, self.settings));
    }

    /// What is accepted as member name is a string.
    proof fn lemma_accepted_name(self, name: Seq<char>)
        requires
            self.can_peek(),
            self.skip_base is None,
            self.transfer is None,
            self.ongoing is None,
            self.expects_member_name,
            self.peeked == Some(PeekedValue::NameStart),
            self.next_name().1 == Outcome::Ready(name),
        ensures
            ({
                let next = self.next_name().0;
                let bytes = self.scan.pending.bytes;
                let len = bytes.len() - next.scan.pending.bytes.len();
                &&& 0 <= len <= bytes.len()
                &&& super::documents::is_string_text(seq![ascii::QUOTE] + bytes.take(len), name)
                &&& next.is_waiting()
                &&& next.expects_member_value()
                &&& next.stack == self.stack
                &&& next.settings == self.settings
                &&& next.scan.pending == self.scan.pending.after(len)
            }),
    {
        reveal(ReaderModel::next_name);
        self.lemma_read_name(true);
        assert(self.picked_up() == self);
        assert(self.check_next() == (self, Outcome::Ready(true)));
        let started = ReaderModel { expects_member_name: false, ..self.consume_peeked() };
        assert(self.before_name() == (started, Outcome::Ready(())));
        let reading = started.reading(Doing::ReadingName, true);
        let chars = lemma_accepted_string(reading.scan);
        let bytes = self.scan.pending.bytes;
        let behind = reading.scan.read_string().0;
        let len = bytes.len() - behind.pending.bytes.len();
        assert(Seq::<u8>::empty() + encode_utf8(chars) =~= encode_utf8(chars));
        encode_utf8_decode_utf8(chars);
        assert(name == chars);
        let next = self.next_name().0;
        assert(bytes.skip(len).skip(1) =~= bytes.skip(len + 1));
        assert(next.scan.pending == self.scan.pending.after(len + 1));
        let text = seq![ascii::QUOTE] + bytes.take(len + 1);
        assert(text.subrange(1, text.len() - 1) =~= bytes.take(len));
        assert(text.last() == bytes[len]);
    }

    /// A value which is read is peeked at first.
    proof fn lemma_read_start(self, fuel: nat)
        requires
            self.is_waiting(),
            !self.expects_member_name,
            self.read_json(fuel).1 is Ready,
        ensures
            self.peek_internal().1 is Ready,
            self.peek_internal().0.is_at_start(),
            self.peek_internal().0.peeked == Some(self.peek_internal().1->Ready_0),
            self.peek_internal().0.read_json(fuel) == self.read_json(fuel),
            self.same_but_token(self.peek_internal().0),
    {
        assert(self.picked_up() == self);
        self.lemma_peek_internal();
        self.lemma_peek_value();
        let (at, outcome) = self.peek_internal();
        assert(outcome is Ready);
        at.lemma_peek_start();
        assert(self.peek() == at.peek());
    }

    /// The text of a member whose name and value were read.
    proof fn lemma_member_read(
        self,
        next: ReaderModel,
        named: ReaderModel,
        at_value: ReaderModel,
        behind: ReaderModel,
        member: Member,
        start: int,
        value_start: int,
    )
        requires
            0 <= start,
            start + 1 <= self.scan.pending.bytes.len(),
            self.peeks_at(next, PeekedValue::NameStart, start + 1),
            self.scan.pending.bytes.subrange(start, start + 1) == PeekedValue::NameStart.spelling(),
            ({
                let bytes = next.scan.pending.bytes;
                let len = bytes.len() - named.scan.pending.bytes.len();
                &&& 0 <= len <= bytes.len()
                &&& super::documents::is_string_text(
                    seq![ascii::QUOTE] + bytes.take(len),
                    member.name,
                )
                &&& named.scan.pending == next.scan.pending.after(len)
            }),
            named.settings == self.settings,
            named.has_peeked(at_value, member.value.token(), value_start, Some(ascii::COLON)),
            at_value.has_read(behind, member.value),
        ensures
            ({
                let bytes = self.scan.pending.bytes;
                let end = bytes.len() - behind.scan.pending.bytes.len();
                &&& start <= end <= bytes.len()
                &&& super::documents::is_member_text(
                    bytes.subrange(start, end),
                    member,
                    self.settings,
                )
                &&& behind.scan.pending == self.scan.pending.after(end)
            }),
    {
        let bytes = self.scan.pending.bytes;
        named.lemma_item_text(at_value, member.value.token(), value_start, behind, member.value);
        let named_bytes = named.scan.pending.bytes;
        let name_end = bytes.len() - named_bytes.len();
        let end = bytes.len() - behind.scan.pending.bytes.len();
        let len = next.scan.pending.bytes.len() - named_bytes.len();
        assert(next.scan.pending.bytes =~= bytes.skip(start + 1));
        assert(named_bytes =~= bytes.skip(name_end));
        assert(named_bytes.skip(end - name_end) =~= bytes.skip(end));
        let text = bytes.subrange(start, end);
        let i = name_end - start;
        let k = i + value_start;
        assert(bytes.subrange(start, start + 1)[0] == bytes[start]);
        assert(text.take(i) =~= seq![ascii::QUOTE] + next.scan.pending.bytes.take(len));
        let behind_name = named_bytes.take(end - name_end);
        assert(text.skip(i) =~= behind_name);
        lemma_led_within(named_bytes, end - name_end, ascii::COLON, value_start, self.settings);
        let colon = choose|colon: int|
            0 <= colon < value_start && #[trigger] super::documents::is_separated_until(
                behind_name,
                ascii::COLON,
                colon,
                value_start,
                self.settings,
            );
        let j = i + colon;
        assert(super::documents::is_separated_until(
            text.skip(i),
            ascii::COLON,
            j - i,
            k - i,
            self.settings,
        ));
        assert(text.skip(k) =~= named_bytes.subrange(value_start, end - name_end));
        assert(super::documents::is_string_text(text.take(i), member.name));
    }

    /// A member and the following members were read.
    proof fn lemma_members_joined(
        self,
        behind: ReaderModel,
        last: ReaderModel,
        members: Seq<Member>,
        from: int,
        start: int,
    )
        requires
            0 <= from < members.len(),
            behind.has_read_members(last, members, from + 1),
            behind.stack == self.stack,
            behind.settings == self.settings,
            members[from].value.is_allowed(self.settings, self.stack.len()),
            ({
                let bytes = self.scan.pending.bytes;
                let end = bytes.len() - behind.scan.pending.bytes.len();
                &&& 0 <= start <= end <= bytes.len()
                &&& super::documents::is_member_text(
                    bytes.subrange(start, end),
                    members[from],
                    self.settings,
                )
                &&& behind.scan.pending == self.scan.pending.after(end)
                &&& if from == 0 {
                    super::gaps::is_gap(bytes.take(start), self.settings)
                } else {
                    is_led_by(bytes, ascii::COMMA, start, self.settings)
                }
            }),
        ensures
            self.has_read_members(last, members, from),
    {
        let bytes = self.scan.pending.bytes;
        let end = bytes.len() - behind.scan.pending.bytes.len();
        let len = bytes.len() - last.scan.pending.bytes.len();
        let text = bytes.take(len - 1);
        assert(text.subrange(start, end) =~= bytes.subrange(start, end));
        assert(text.skip(end) =~= bytes.skip(end).take(len - 1 - end));
        if from == 0 {
            assert(text.take(start) =~= bytes.take(start));
        } else {
            lemma_led_within(bytes, len - 1, ascii::COMMA, start, self.settings);
        }
        lemma_members_behind_member(text, members, from, start, end, self.settings);
        assert(bytes.skip(end)[len - 1 - end] == bytes[len - 1]);
        assert(bytes.skip(end).skip(len - end) =~= bytes.skip(len));
    }

    /// Whether the remaining members were read up to the end of the object between two states;
    /// `members` are all members of the object, of which `from` had been read before.
    pub open spec fn has_read_members(
        self,
        next: ReaderModel,
        members: Seq<Member>,
        from: int,
    ) -> bool {
        let bytes = self.scan.pending.bytes;
        let len = bytes.len() - next.scan.pending.bytes.len();
        &&& 0 <= from <= members.len()
        &&& 1 <= len <= bytes.len()
        &&& bytes[len - 1] == ascii::CLOSE_BRACE
        &&& is_rest_of_members(bytes.take(len - 1), members, from, self.settings)
        &&& self.leaves_to(next, len)
        &&& forall|i: int|
            from <= i < members.len() ==> (#[trigger] members[i]).value.is_allowed(
                self.settings,
                self.stack.len(),
            )
    }
}

/// Whether the text within an object represents the members from an index on.
pub open spec fn is_rest_of_members(
    text: Seq<u8>,
    members: Seq<Member>,
    from: int,
    settings: ReaderSettings,
) -> bool {
    if from == 0 {
        super::documents::is_members_text(text, members, settings)
    } else {
        super::documents::is_more_members_text(text, members, from, settings)
    }
}

/// A member in front of the following members.
proof fn lemma_members_behind_member(
    text: Seq<u8>,
    members: Seq<Member>,
    from: int,
    start: int,
    end: int,
    settings: ReaderSettings,
)
    requires
        0 <= from < members.len(),
        0 <= start <= end <= text.len(),
        super::documents::is_member_text(text.subrange(start, end), members[from], settings),
        super::documents::is_more_members_text(text.skip(end), members, from + 1, settings),
        if from == 0 {
            super::gaps::is_gap(text.take(start), settings)
        } else {
            is_led_by(text, ascii::COMMA, start, settings)
        },
    ensures
        is_rest_of_members(text, members, from, settings),
{
    if from == 0 {
        assert(super::documents::is_gap_until(text, start, end, settings));
    } else {
        let i = choose|i: int|
            0 <= i < start && #[trigger] super::documents::is_separated_until(
                text,
                ascii::COMMA,
                i,
                start,
                settings,
            );
        assert(super::documents::is_separated_until(text, ascii::COMMA, i, start, settings));
        assert(super::documents::is_member_text(
            text.subrange(start, end),
            members[from],
            settings,
        ));
    }
}

/// Only JSON documents are accepted: if reading a value succeeds and nothing but whitespace is left
/// afterwards, then the data was a JSON document which represents the value, possibly with comments
/// and trailing commas if the settings allow them. Nor are values accepted which the settings do
/// not allow.
pub proof fn law_only_documents_are_read(
    settings: ReaderSettings,
    text: Seq<u8>,
    value: Json,
    fuel: nat,
)
    requires
        text.len() <= u64::MAX,
        ({
            let reader = ReaderModel::start(settings).extended(text, true);
            let (behind, outcome) = reader.read_json(fuel);
            &&& outcome == Outcome::Ready(value)
            &&& behind.consume_trailing_whitespace().1 == Outcome::Ready(())
        }),
    ensures
        super::documents::is_document(text, value, settings),
        value.is_allowed(settings, 0),
{
    let reader = ReaderModel::start(settings).extended(text, true);
    assert(reader.scan.pending.bytes =~= text);
    reader.lemma_read_start(fuel);
    let (at_value, outcome) = reader.peek_internal();
    let token = outcome->Ready_0;
    let (start, separator) = reader.lemma_peeked(token);
    at_value.lemma_accepted_value(value, fuel);
    let behind = reader.read_json(fuel).0;
    reader.lemma_item_text(at_value, token, start, behind, value);
    let end = text.len() - behind.scan.pending.bytes.len();
    assert(behind.picked_up() == behind);
    super::gaps::lemma_skipped_gap(behind.scan, settings);
    let rest = behind.scan.pending.bytes;
    assert(rest.take(rest.len() as int) =~= rest);
    assert(super::documents::is_gap_until(text, start, end, settings));
}

} // verus!
