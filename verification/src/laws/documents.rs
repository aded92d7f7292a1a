//! Laws: reading a JSON document gives back the value which the document represents.

use vstd::prelude::*;
use vstd::utf8::*;

use super::numbers::is_json_number;
use crate::ascii;
use crate::error::{Outcome, ValueType};
use crate::lookahead::{Ahead, NextChar, Pending};
use crate::model::{Doing, Operation, ReaderModel};
use crate::scan::{ScanState, StringEnd};
use crate::settings::ReaderSettings;
use crate::token::{Context, LiteralEnd, PeekedValue, StackValue, Token};

verus! {

/// A JSON value.
pub enum Json {
    Null,
    Bool(bool),
    Number(Seq<char>),
    String(Seq<char>),
    Array(Seq<Json>),
    Object(Seq<Member>),
}

/// A member of a JSON object.
pub struct Member {
    pub name: Seq<char>,
    pub value: Json,
}

// ---- Texts which represent values ----

/// The code unit given by four hexadecimal digits.
pub open spec fn code_unit(digits: Seq<u8>) -> Option<u32> {
    if digits.len() == 4 {
        match (
            crate::lookahead::hex_value(digits[0]),
            crate::lookahead::hex_value(digits[1]),
            crate::lookahead::hex_value(digits[2]),
            crate::lookahead::hex_value(digits[3]),
        ) {
            (Some(digit1), Some(digit2), Some(digit3), Some(digit4)) => Some(
                (digit1 * 0x1000 + digit2 * 0x100 + digit3 * 0x10 + digit4) as u32,
            ),
            _ => None,
        }
    } else {
        None
    }
}

/// The code unit given by a Unicode escape sequence.
pub open spec fn escaped_unit(text: Seq<u8>) -> Option<u32> {
    if text.len() == 6 && text[0] == ascii::BACKSLASH && text[1] == ascii::LOWER_U {
        code_unit(text.skip(2))
    } else {
        None
    }
}

/// Whether the text is a char which is not escaped.
pub open spec fn is_plain_char(text: Seq<u8>, char: char) -> bool {
    &&& text == encode_scalar(char as u32)
    &&& char as u32 >= 0x20
    &&& char as u32 != ascii::QUOTE
    &&& char as u32 != ascii::BACKSLASH
}

/// Whether the text is an escape sequence of two characters which represents the char.
pub open spec fn is_simple_escape(text: Seq<u8>, char: char) -> bool {
    &&& text.len() == 2
    &&& text[0] == ascii::BACKSLASH
    &&& crate::lookahead::simple_escape(text[1]) == Some(char as u32)
}

/// Whether the text is a Unicode escape sequence which represents the char.
pub open spec fn is_unicode_escape(text: Seq<u8>, char: char) -> bool {
    escaped_unit(text) == Some(char as u32)
}

/// Whether the text consists of two Unicode escape sequences which form a surrogate pair that
/// represents the char.
pub open spec fn is_escaped_pair(text: Seq<u8>, char: char) -> bool {
    &&& text.len() == 12
    &&& escaped_unit(text.take(6)) matches Some(high)
    &&& escaped_unit(text.skip(6)) matches Some(low)
    &&& crate::lookahead::is_high_surrogate(high)
    &&& crate::lookahead::is_low_surrogate(low)
    &&& crate::lookahead::surrogate_pair(high, low) == char as u32
}

/// Whether the text within a string represents the char.
pub open spec fn is_char_text(text: Seq<u8>, char: char) -> bool {
    ||| is_plain_char(text, char)
    ||| is_simple_escape(text, char)
    ||| is_unicode_escape(text, char)
    ||| is_escaped_pair(text, char)
}

/// Whether the text between the double quotes of a string represents the chars.
pub open spec fn is_string_content(text: Seq<u8>, chars: Seq<char>) -> bool
    decreases chars.len(),
{
    if chars.len() == 0 {
        text.len() == 0
    } else {
        exists|i: int|
            0 <= i <= text.len() && is_char_text(#[trigger] text.take(i), chars[0])
                && is_string_content(text.skip(i), chars.skip(1))
    }
}

/// Whether the text is a string which represents the chars.
pub open spec fn is_string_text(text: Seq<u8>, chars: Seq<char>) -> bool {
    &&& text.len() >= 2
    &&& text[0] == ascii::QUOTE
    &&& text.last() == ascii::QUOTE
    &&& is_string_content(text.subrange(1, text.len() - 1), chars)
}

/// Whether the text represents the value.
pub open spec fn is_value_text(text: Seq<u8>, value: Json, settings: ReaderSettings) -> bool
    decreases value, 2int, 0int,
{
    match value {
        Json::Null => text == PeekedValue::Null.text(),
        Json::Bool(true) => text == PeekedValue::BooleanTrue.text(),
        Json::Bool(false) => text == PeekedValue::BooleanFalse.text(),
        Json::Number(number) => is_json_number(text) && number == decode_utf8(text),
        Json::String(chars) => is_string_text(text, chars),
        Json::Array(items) => {
            &&& text.len() >= 2
            &&& text[0] == ascii::OPEN_BRACKET
            &&& text.last() == ascii::CLOSE_BRACKET
            &&& is_items_text(text.subrange(1, text.len() - 1), items, settings)
        },
        Json::Object(members) => {
            &&& text.len() >= 2
            &&& text[0] == ascii::OPEN_BRACE
            &&& text.last() == ascii::CLOSE_BRACE
            &&& is_members_text(text.subrange(1, text.len() - 1), members, settings)
        },
    }
}

/// Whether the text between the brackets of an array represents the items.
pub open spec fn is_items_text(text: Seq<u8>, items: Seq<Json>, settings: ReaderSettings) -> bool
    decreases items, 1int, items.len(),
{
    if items.len() == 0 {
        super::gaps::is_gap(text, settings)
    } else {
        exists|i: int, j: int|
            0 <= i <= j <= text.len() && #[trigger] is_gap_until(text, i, j, settings) && is_value_text(
                text.subrange(i, j),
                items[0],
                settings,
            ) && is_more_items_text(text.skip(j), items, 1, settings)
    }
}

/// Whether the text behind an array item represents the items from the given index on.
pub open spec fn is_more_items_text(
    text: Seq<u8>,
    items: Seq<Json>,
    from: int,
    settings: ReaderSettings,
) -> bool
    decreases items, 0int, items.len() - from,
{
    if from >= items.len() || from < 0 {
        is_end_gap(text, settings)
    } else {
        exists|i: int, j: int|
            0 <= i <= j <= text.len() && #[trigger] is_separated_until(
                text,
                ascii::COMMA,
                i,
                j,
                settings,
            ) && exists|k: int|
                j <= k <= text.len() && is_value_text(
                    #[trigger] text.subrange(j, k),
                    items[from],
                    settings,
                )
                    && is_more_items_text(text.skip(k), items, from + 1, settings)
    }
}

/// Whether the text starts with a gap up to `i`; `j` is some index behind that.
pub open spec fn is_gap_until(text: Seq<u8>, i: int, j: int, settings: ReaderSettings) -> bool {
    super::gaps::is_gap(text.take(i), settings)
}

/// Whether the text starts with the separator at `i`, with gaps around it up to `j`.
pub open spec fn is_separated_until(
    text: Seq<u8>,
    separator: u8,
    i: int,
    j: int,
    settings: ReaderSettings,
) -> bool {
    &&& i < j
    &&& super::gaps::is_gap(text.take(i), settings)
    &&& text[i] == separator
    &&& super::gaps::is_gap(text.subrange(i + 1, j), settings)
}

/// Whether the text may stand between the last element and the closing bracket of an array or
/// object: there may be a comma if this is enabled.
pub open spec fn is_end_gap(text: Seq<u8>, settings: ReaderSettings) -> bool {
    ||| super::gaps::is_gap(text, settings)
    ||| settings.allow_trailing_comma && exists|i: int|
        0 <= i < text.len() && #[trigger] is_separated_until(
            text,
            ascii::COMMA,
            i,
            text.len() as int,
            settings,
        )
}

/// Whether the text between the brackets of an object represents the members.
pub open spec fn is_members_text(
    text: Seq<u8>,
    members: Seq<Member>,
    settings: ReaderSettings,
) -> bool
    decreases members, 1int, members.len(),
{
    if members.len() == 0 {
        super::gaps::is_gap(text, settings)
    } else {
        exists|i: int, j: int|
            0 <= i <= j <= text.len() && #[trigger] is_gap_until(text, i, j, settings)
                && is_member_text(text.subrange(i, j), members[0], settings) && is_more_members_text(
                text.skip(j),
                members,
                1,
                settings,
            )
    }
}

/// Whether the text behind an object member represents the members from the given index on.
pub open spec fn is_more_members_text(
    text: Seq<u8>,
    members: Seq<Member>,
    from: int,
    settings: ReaderSettings,
) -> bool
    decreases members, 0int, members.len() - from,
{
    if from >= members.len() || from < 0 {
        is_end_gap(text, settings)
    } else {
        exists|i: int, j: int|
            0 <= i <= j <= text.len() && #[trigger] is_separated_until(
                text,
                ascii::COMMA,
                i,
                j,
                settings,
            ) && exists|k: int|
                j <= k <= text.len() && is_member_text(
                    #[trigger] text.subrange(j, k),
                    members[from],
                    settings,
                ) && is_more_members_text(text.skip(k), members, from + 1, settings)
    }
}

/// Whether the text represents the object member.
pub open spec fn is_member_text(text: Seq<u8>, member: Member, settings: ReaderSettings) -> bool
    decreases member, 3int, 0int,
{
    exists|i: int|
        0 <= i <= text.len() && is_string_text(#[trigger] text.take(i), member.name) && exists|
            j: int,
            k: int,
        |
            i <= j <= k <= text.len() && #[trigger] is_separated_until(
                text.skip(i),
                ascii::COLON,
                j - i,
                k - i,
                settings,
            ) && is_value_text(text.skip(k), member.value, settings)
}

// ---- Characters and strings ----

/// The bytes of a char are well-formed UTF-8.
proof fn lemma_encoded_char(char: char)
    ensures
        ({
            let text = encode_scalar(char as u32);
            &&& valid_first_scalar(text)
            &&& length_of_first_scalar(text) == text.len()
            &&& 1 <= text.len() <= 4
            &&& decode_first_scalar(text) == char as u32
        }),
{
    let chars = seq![char];
    reveal_with_fuel(encode_utf8, 2);
    assert(chars.drop_first() =~= Seq::<char>::empty());
    assert(encode_utf8(chars) =~= encode_scalar(char as u32));
    encode_utf8_first_scalar(chars);
}

/// A char which is not escaped is recognized.
pub proof fn lemma_plain_char(pending: Pending, text: Seq<u8>, char: char)
    requires
        text.len() <= pending.bytes.len(),
        pending.bytes.take(text.len() as int) == text,
        is_plain_char(text, char),
    ensures
        pending.string_char() == (NextChar::Plain { len: text.len() as usize }),
{
    lemma_encoded_char(char);
    let len = text.len() as int;
    assert(forall|i: int| 0 <= i < len ==> pending.bytes[i] == #[trigger] text[i]);
    assert(pending.bytes[0] == text[0]);
    if len == 1 {
        let byte = text[0];
        assert(byte <= 0x7F);
        assert(codepoint_width_1(byte) == byte) by {
            assert(byte <= 0x7Fu8 ==> (byte & 0x7F) == byte) by (bit_vector);
        }
    } else if len == 2 {
        assert(pending.ahead(1) == Ahead::Byte(text[1]));
        assert(seq![text[0], text[1]] =~= text);
    } else if len == 3 {
        assert(pending.ahead(1) == Ahead::Byte(text[1]));
        assert(pending.ahead(2) == Ahead::Byte(text[2]));
        assert(seq![text[0], text[1], text[2]] =~= text);
    } else {
        assert(pending.ahead(1) == Ahead::Byte(text[1]));
        assert(pending.ahead(2) == Ahead::Byte(text[2]));
        assert(pending.ahead(3) == Ahead::Byte(text[3]));
        assert(seq![text[0], text[1], text[2], text[3]] =~= text);
    }
}

/// The digits of a Unicode escape sequence are recognized.
proof fn lemma_code_unit(pending: Pending, distance: int, digits: Seq<u8>)
    requires
        0 <= distance <= 8,
        distance + 4 <= pending.bytes.len(),
        pending.bytes.subrange(distance, distance + 4) == digits,
        code_unit(digits) is Some,
    ensures
        pending.hex_number(distance as usize) == crate::lookahead::HexNumber::Value(
            code_unit(digits)->0,
        ),
{
    assert(pending.ahead(distance) == Ahead::Byte(digits[0]));
    assert(pending.ahead(distance + 1) == Ahead::Byte(digits[1]));
    assert(pending.ahead(distance + 2) == Ahead::Byte(digits[2]));
    assert(pending.ahead(distance + 3) == Ahead::Byte(digits[3]));
}

/// A char is recognized, whichever way it is written.
proof fn lemma_char_text(pending: Pending, text: Seq<u8>, char: char)
    requires
        text.len() <= pending.bytes.len(),
        pending.bytes.take(text.len() as int) == text,
        is_char_text(text, char),
    ensures
        ({
            let next = pending.string_char();
            &&& next is Plain || next is Escaped
            &&& next.source_len() == text.len()
            &&& next.bytes(pending) == encode_scalar(char as u32)
        }),
{
    let len = text.len() as int;
    assert(forall|i: int| 0 <= i < len ==> pending.bytes[i] == #[trigger] text[i]);
    if is_plain_char(text, char) {
        lemma_plain_char(pending, text, char);
        lemma_encoded_char(char);
    } else if is_simple_escape(text, char) {
        assert(pending.ahead(0) == Ahead::Byte(text[0]));
        assert(pending.ahead(1) == Ahead::Byte(text[1]));
    } else if is_unicode_escape(text, char) {
        assert(pending.ahead(0) == Ahead::Byte(text[0]));
        assert(pending.ahead(1) == Ahead::Byte(text[1]));
        assert(pending.bytes.subrange(2, 6) =~= text.skip(2));
        lemma_code_unit(pending, 2, text.skip(2));
    } else {
        let first = text.take(6);
        let second = text.skip(6);
        assert(pending.ahead(0) == Ahead::Byte(first[0]));
        assert(pending.ahead(1) == Ahead::Byte(first[1]));
        assert(pending.bytes.subrange(2, 6) =~= first.skip(2));
        lemma_code_unit(pending, 2, first.skip(2));
        assert(pending.ahead(6) == Ahead::Byte(second[0]));
        assert(pending.ahead(7) == Ahead::Byte(second[1]));
        assert(pending.bytes.subrange(8, 12) =~= second.skip(2));
        lemma_code_unit(pending, 8, second.skip(2));
    }
}

impl ScanState {
    /// Whether another state is the same up to the place, behind some bytes.
    pub open spec fn is_behind(self, other: ScanState, count: int) -> bool {
        self == (ScanState {
            pending: other.pending.after(count),
            spot: self.spot,
            ..other
        })
    }
}

/// The content of a string is read completely, whichever way its chars are written.
proof fn lemma_string_content(scan: ScanState, text: Seq<u8>, chars: Seq<char>)
    requires
        text.len() < scan.pending.bytes.len(),
        scan.pending.bytes.take(text.len() as int) == text,
        scan.pending.bytes[text.len() as int] == ascii::QUOTE,
        is_string_content(text, chars),
        scan.value is Some,
    ensures
        ({
            let (next, end) = scan.read_string();
            &&& end == StringEnd::Quote
            &&& next.is_behind(
                scan.with_value(Some(scan.value->0 + encode_utf8(chars))),
                text.len() as int,
            )
        }),
    decreases chars.len(),
{
    if chars.len() == 0 {
        assert(scan.pending.ahead(0) == Ahead::Byte(ascii::QUOTE));
        assert(scan.pending.bytes.skip(0) =~= scan.pending.bytes);
        assert(scan.value->0 + encode_utf8(chars) =~= scan.value->0);
    } else {
        let i = choose|i: int|
            0 <= i <= text.len() && is_char_text(#[trigger] text.take(i), chars[0])
                && is_string_content(text.skip(i), chars.skip(1));
        assert(scan.pending.bytes.take(i) =~= text.take(i));
        lemma_char_text(scan.pending, text.take(i), chars[0]);
        scan.lemma_string_step();
        let (next, end) = scan.string_step();
        assert(next.pending.bytes.take(text.len() - i) =~= text.skip(i));
        lemma_string_content(next, text.skip(i), chars.skip(1));
        assert(chars.skip(1) =~= chars.drop_first());
        assert(scan.value->0 + encode_scalar(chars[0] as u32) + encode_utf8(chars.skip(1))
            =~= scan.value->0 + encode_utf8(chars));
        assert(scan.pending.bytes.skip(i).skip(text.len() - i) =~= scan.pending.bytes.skip(
            text.len() as int,
        ));
    }
}

// ---- Gaps and tokens ----

/// A complete literal is recognized.
proof fn lemma_literal(pending: Pending, text: Seq<u8>, at: nat)
    requires
        at <= text.len() <= pending.bytes.len(),
        pending.bytes.take(text.len() as int) == text,
        pending.is_delimited(text.len() as int),
    ensures
        pending.literal(text, at) == LiteralEnd::Complete,
    decreases text.len() - at,
{
    if at < text.len() {
        assert(pending.bytes[at as int] == text[at as int]);
        lemma_literal(pending, text, at + 1);
    }
}

impl Pending {
    /// Whether a literal or number may end at a distance.
    pub open spec fn is_delimited(self, distance: int) -> bool {
        match self.ahead(distance) {
            Ahead::Missing => false,
            Ahead::Ended => true,
            Ahead::Byte(byte) => ascii::is_separator(byte),
        }
    }
}

impl Json {
    /// The token with which the value starts.
    pub open spec fn token(self) -> PeekedValue {
        match self {
            Json::Null => PeekedValue::Null,
            Json::Bool(true) => PeekedValue::BooleanTrue,
            Json::Bool(false) => PeekedValue::BooleanFalse,
            Json::Number(_) => PeekedValue::NumberStart,
            Json::String(_) => PeekedValue::StringStart,
            Json::Array(_) => PeekedValue::ArrayStart,
            Json::Object(_) => PeekedValue::ObjectStart,
        }
    }

    /// Whether the value has to be followed by something which separates values.
    pub open spec fn needs_delimiter(self) -> bool {
        self is Null || self is Bool || self is Number
    }
}

/// A number starts with a digit or a minus sign.
proof fn lemma_number_start(text: Seq<u8>)
    requires
        is_json_number(text),
    ensures
        text.len() > 0,
        text[0] == ascii::MINUS || ascii::is_digit(text[0]),
{
    super::numbers::law_number_grammar(text);
    crate::number::NumberPart::Start.lemma_after_first(text);
}

/// The first token of a value is recognized.
proof fn lemma_first_token(
    pending: Pending,
    text: Seq<u8>,
    value: Json,
    context: Context,
    settings: ReaderSettings,
)
    requires
        text.len() <= pending.bytes.len(),
        pending.bytes.take(text.len() as int) == text,
        is_value_text(text, value, settings),
        !(context is Name),
        value.needs_delimiter() ==> pending.is_delimited(text.len() as int),
    ensures
        text.len() > 0,
        pending.token(text[0], context) == Token::Found(value.token()),
        !ascii::is_blank(text[0]),
        text[0] != ascii::SLASH,
        text[0] != ascii::COMMA,
        value.token().len() <= text.len(),
{
    match value {
        Json::Null => lemma_literal(pending, text, 0),
        Json::Bool(_) => lemma_literal(pending, text, 0),
        Json::Number(_) => lemma_number_start(text),
        _ => {},
    }
}

impl ReaderModel {
    /// Whether another state is reached by peeking at a token which ends at the given distance.
    pub open spec fn peeks_at(self, next: ReaderModel, token: PeekedValue, distance: int) -> bool {
        &&& next == (ReaderModel { scan: next.scan, peeked: Some(token), ..self })
        &&& next.scan.is_behind(self.scan, distance)
    }

    /// A token which starts with the next byte is peeked at.
    proof fn lemma_peek_found(self, byte: u8, token: PeekedValue)
        requires
            self.scan.pending.ahead(0) == Ahead::Byte(byte),
            self.scan.pending.token(byte, self.context()) == Token::Found(token),
            if self.comma is Some {
                !token.is_end() || self.settings.allow_trailing_comma
            } else {
                token.is_end() || !self.can_have_comma()
            },
        ensures
            token.len() <= self.scan.pending.bytes.len(),
            self.peek_token(byte) == (
                (ReaderModel {
                    scan: self.scan.dropped(token.len() as int),
                    peeked: Some(token),
                    colon_read: false,
                    comma: None,
                    ..self
                }),
                Outcome::Ready(Some(token)),
            ),
    {
        self.scan.pending.lemma_token(byte, self.context());
    }

    /// A token behind a comma is peeked at.
    proof fn lemma_peek_after_comma_here(self, count: int, token: PeekedValue)
        requires
            self.scan.gap is Outside,
            self.comma is Some,
            0 <= count < self.scan.pending.bytes.len(),
            super::gaps::is_gap(self.scan.pending.bytes.take(count), self.settings),
            ({
                let byte = self.scan.pending.bytes[count];
                &&& !ascii::is_blank(byte)
                &&& byte != ascii::SLASH
                &&& self.scan.pending.after(count).token(byte, self.context()) == Token::Found(
                    token,
                )
            }),
            !token.is_end() || self.settings.allow_trailing_comma,
        ensures
            count + token.len() <= self.scan.pending.bytes.len(),
            self.peek_after_comma().1 == Outcome::Ready(Some(token)),
            (ReaderModel { colon_read: false, comma: None, ..self }).peeks_at(
                self.peek_after_comma().0,
                token,
                count + token.len(),
            ),
    {
        let byte = self.scan.pending.bytes[count];
        super::gaps::lemma_gap(self.scan, count, byte, self.settings);
        let (scan, _) = self.scan.skip_gap(self.settings.allow_comments);
        let found = ReaderModel { scan, ..self };
        assert(self.peek_after_comma() == found.peek_token(byte));
        found.lemma_peek_found(byte, token);
        assert(self.scan.pending.bytes.skip(count).skip(token.len() as int)
            =~= self.scan.pending.bytes.skip(count + token.len()));
    }

    /// A token with whitespace in front of it is peeked at.
    proof fn lemma_peek_separated_here(self, count: int, token: PeekedValue)
        requires
            self.comma is None,
            self.scan.gap is Outside,
            0 <= count < self.scan.pending.bytes.len(),
            super::gaps::is_gap(self.scan.pending.bytes.take(count), self.settings),
            ({
                let byte = self.scan.pending.bytes[count];
                &&& !ascii::is_blank(byte)
                &&& byte != ascii::SLASH
                &&& byte != ascii::COMMA
                &&& self.scan.pending.after(count).token(byte, self.context()) == Token::Found(
                    token,
                )
            }),
            token.is_end() || !self.can_have_comma(),
        ensures
            count + token.len() <= self.scan.pending.bytes.len(),
            self.peek_separated().1 == Outcome::Ready(Some(token)),
            (ReaderModel { colon_read: false, ..self }).peeks_at(
                self.peek_separated().0,
                token,
                count + token.len(),
            ),
    {
        let byte = self.scan.pending.bytes[count];
        super::gaps::lemma_gap(self.scan, count, byte, self.settings);
        let (scan, _) = self.scan.skip_gap(self.settings.allow_comments);
        let found = ReaderModel { scan, ..self };
        assert(self.peek_separated() == found.peek_token(byte));
        found.lemma_peek_found(byte, token);
        assert(self.scan.pending.bytes.skip(count).skip(token.len() as int)
            =~= self.scan.pending.bytes.skip(count + token.len()));
    }

    /// A token with whitespace in front of it is peeked at.
    proof fn lemma_peek_here(self, count: int, token: PeekedValue)
        requires
            self.at_token(),
            !self.expects_member_value(),
            0 <= count < self.scan.pending.bytes.len(),
            super::gaps::is_gap(self.scan.pending.bytes.take(count), self.settings),
            ({
                let byte = self.scan.pending.bytes[count];
                &&& !ascii::is_blank(byte)
                &&& byte != ascii::SLASH
                &&& byte != ascii::COMMA
                &&& self.scan.pending.after(count).token(byte, self.context()) == Token::Found(
                    token,
                )
            }),
            token.is_end() || !self.can_have_comma(),
        ensures
            self.peek_internal().1 == Outcome::Ready(token),
            self.peeks_at(self.peek_internal().0, token, count + token.len()),
    {
        self.lemma_peek_separated_here(count, token);
    }

    /// A token with a comma in front of it is peeked at.
    proof fn lemma_peek_behind_comma(self, i: int, j: int, token: PeekedValue)
        requires
            self.at_token(),
            !self.expects_member_value(),
            self.can_have_comma(),
            0 <= i <= j < self.scan.pending.bytes.len(),
            is_separated_until(self.scan.pending.bytes, ascii::COMMA, i, j, self.settings),
            ({
                let byte = self.scan.pending.bytes[j];
                &&& !ascii::is_blank(byte)
                &&& byte != ascii::SLASH
                &&& self.scan.pending.after(j).token(byte, self.context()) == Token::Found(token)
            }),
            !token.is_end() || self.settings.allow_trailing_comma,
        ensures
            self.peek_internal().1 == Outcome::Ready(token),
            self.peeks_at(self.peek_internal().0, token, j + token.len()),
    {
        let bytes = self.scan.pending.bytes;
        super::gaps::lemma_gap(self.scan, i, ascii::COMMA, self.settings);
        let (scan, _) = self.scan.skip_gap(self.settings.allow_comments);
        let behind = ReaderModel { scan: scan.consumed(1, 1), comma: Some(scan.spot), ..self };
        let count = j - i - 1;
        let rest = behind.scan.pending.bytes;
        assert(rest =~= bytes.skip(i + 1));
        assert(rest.take(count) =~= bytes.subrange(i + 1, j));
        assert(rest.skip(count) =~= bytes.skip(j));
        assert(self.peek_separated() == behind.peek_after_comma());
        behind.lemma_peek_after_comma_here(count, token);
        assert(rest.skip(count + token.len()) =~= bytes.skip(j + token.len()));
        assert(self.peek_internal().0 == self.peek_separated().0);
    }

    /// The first token of a member value is peeked at.
    proof fn lemma_peek_behind_colon(self, i: int, j: int, token: PeekedValue)
        requires
            self.at_token(),
            self.expects_member_value(),
            0 <= i <= j < self.scan.pending.bytes.len(),
            is_separated_until(self.scan.pending.bytes, ascii::COLON, i, j, self.settings),
            ({
                let byte = self.scan.pending.bytes[j];
                &&& !ascii::is_blank(byte)
                &&& byte != ascii::SLASH
                &&& byte != ascii::COMMA
                &&& self.scan.pending.after(j).token(byte, self.context()) == Token::Found(token)
            }),
        ensures
            self.peek_internal().1 == Outcome::Ready(token),
            self.peeks_at(self.peek_internal().0, token, j + token.len()),
    {
        let bytes = self.scan.pending.bytes;
        super::gaps::lemma_gap(self.scan, i, ascii::COLON, self.settings);
        let (behind, _) = self.after_name();
        let count = j - i - 1;
        let rest = behind.scan.pending.bytes;
        assert(rest =~= bytes.skip(i + 1));
        assert(rest.take(count) =~= bytes.subrange(i + 1, j));
        assert(rest.skip(count) =~= bytes.skip(j));
        assert(self.peek_optional() == behind.peek_separated());
        behind.lemma_peek_separated_here(count, token);
        assert(rest.skip(count + token.len()) =~= bytes.skip(j + token.len()));
        assert(self.peek_internal().0 == behind.peek_separated().0);
    }
}

// ---- Reading values ----

/// The value which was read is passed on, unless reading stopped.
pub open spec fn read_as<T>(stop: (ReaderModel, Outcome<T>), value: Json) -> (
    ReaderModel,
    Outcome<Json>,
) {
    match stop.1 {
        Outcome::Ready(_) => (stop.0, Outcome::Ready(value)),
        stopped => (stop.0, stopped.stopped()),
    }
}

impl ReaderModel {
    /// How a user of the reader reads a whole value: by looking at its type, and reading all
    /// elements of arrays and objects one after the other.
    ///
    /// `fuel` limits how many calls are nested.
    pub open spec fn read_json(self, fuel: nat) -> (ReaderModel, Outcome<Json>)
        decreases fuel,
    {
        if fuel == 0 {
            (self, Outcome::NeedsInput)
        } else {
            let (peeked, outcome) = self.peek();
            match outcome {
                Outcome::Ready(ValueType::Null) => read_as(peeked.next_null(), Json::Null),
                Outcome::Ready(ValueType::Boolean) => match peeked.next_bool() {
                    (next, Outcome::Ready(value)) => (next, Outcome::Ready(Json::Bool(value))),
                    (next, stopped) => (next, stopped.stopped()),
                },
                Outcome::Ready(ValueType::Number) => match peeked.next_number() {
                    (next, Outcome::Ready(number)) => (
                        next,
                        Outcome::Ready(Json::Number(number)),
                    ),
                    (next, stopped) => (next, stopped.stopped()),
                },
                Outcome::Ready(ValueType::String) => match peeked.next_string() {
                    (next, Outcome::Ready(chars)) => (next, Outcome::Ready(Json::String(chars))),
                    (next, stopped) => (next, stopped.stopped()),
                },
                Outcome::Ready(ValueType::Array) => match peeked.begin_array() {
                    (next, Outcome::Ready(_)) => next.read_json_items(
                        Seq::empty(),
                        (fuel - 1) as nat,
                    ),
                    (next, stopped) => (next, stopped.stopped()),
                },
                Outcome::Ready(ValueType::Object) => match peeked.begin_object() {
                    (next, Outcome::Ready(_)) => next.read_json_members(
                        Seq::empty(),
                        (fuel - 1) as nat,
                    ),
                    (next, stopped) => (next, stopped.stopped()),
                },
                stopped => (peeked, stopped.stopped()),
            }
        }
    }

    /// How a user of the reader reads the remaining items of an array.
    pub open spec fn read_json_items(self, items: Seq<Json>, fuel: nat) -> (
        ReaderModel,
        Outcome<Json>,
    )
        decreases fuel,
    {
        if fuel == 0 {
            (self, Outcome::NeedsInput)
        } else {
            match self.has_next() {
                (next, Outcome::Ready(true)) => match next.read_json((fuel - 1) as nat) {
                    (behind, Outcome::Ready(item)) => behind.read_json_items(
                        items.push(item),
                        (fuel - 1) as nat,
                    ),
                    stopped => stopped,
                },
                (next, Outcome::Ready(false)) => read_as(next.end_array(), Json::Array(items)),
                (next, stopped) => (next, stopped.stopped()),
            }
        }
    }

    /// How a user of the reader reads the remaining members of an object.
    pub open spec fn read_json_members(self, members: Seq<Member>, fuel: nat) -> (
        ReaderModel,
        Outcome<Json>,
    )
        decreases fuel,
    {
        if fuel == 0 {
            (self, Outcome::NeedsInput)
        } else {
            match self.has_next() {
                (next, Outcome::Ready(true)) => match next.next_name() {
                    (named, Outcome::Ready(name)) => match named.read_json((fuel - 1) as nat) {
                        (behind, Outcome::Ready(value)) => behind.read_json_members(
                            members.push(Member { name, value }),
                            (fuel - 1) as nat,
                        ),
                        stopped => stopped,
                    },
                    (named, stopped) => (named, stopped.stopped()),
                },
                (next, Outcome::Ready(false)) => read_as(next.end_object(), Json::Object(members)),
                (next, stopped) => (next, stopped.stopped()),
            }
        }
    }
}

impl Json {
    /// How many calls are nested at most when the value is read.
    pub open spec fn fuel(self) -> nat
        decreases self, 1int, 0int,
    {
        match self {
            Json::Array(items) => 1 + Json::items_fuel(items, 0),
            Json::Object(members) => 1 + Json::members_fuel(members, 0),
            _ => 1,
        }
    }

    pub open spec fn items_fuel(items: Seq<Json>, from: int) -> nat
        decreases items, 0int, items.len() - from,
    {
        if 0 <= from < items.len() {
            1 + items[from].fuel() + Json::items_fuel(items, from + 1)
        } else {
            1
        }
    }

    pub open spec fn members_fuel(members: Seq<Member>, from: int) -> nat
        decreases members, 0int, members.len() - from,
    {
        if 0 <= from < members.len() {
            1 + members[from].value.fuel() + Json::members_fuel(members, from + 1)
        } else {
            1
        }
    }

    /// Whether the settings allow the value at a nesting depth: arrays and objects are not nested
    /// too deeply, and numbers are supported.
    pub open spec fn is_allowed(self, settings: ReaderSettings, depth: nat) -> bool
        decreases self,
    {
        let may_nest = settings.max_nesting_depth matches Some(max) ==> depth < max;
        match self {
            Json::Number(number) => {
                let text = encode_utf8(number);
                settings.restrict_number_values ==> super::numbers::exponent_magnitude(text) <= 99
                    && text.len() <= 100
            },
            Json::Array(items) => {
                &&& may_nest
                &&& forall|i: int|
                    0 <= i < items.len() ==> (#[trigger] items[i]).is_allowed(settings, depth + 1)
            },
            Json::Object(members) => {
                &&& may_nest
                &&& forall|i: int|
                    0 <= i < members.len() ==> (#[trigger] members[i]).value.is_allowed(
                        settings,
                        depth + 1,
                    )
            },
            _ => true,
        }
    }
}

impl ReaderModel {
    /// Whether the reader stands in front of something which has not been peeked at, without an
    /// operation in progress.
    pub open spec fn is_waiting(self) -> bool {
        &&& self.can_peek()
        &&& self.at_token()
        &&& self.skip_base is None
        &&& self.transfer is None
        &&& self.ongoing is None
    }

    /// Whether a value was peeked at which is represented by the text.
    pub open spec fn is_at_value(self, text: Seq<u8>, value: Json) -> bool {
        let rest = text.skip(value.token().len() as int);
        &&& self.can_peek()
        &&& !self.expects_member_name
        &&& self.skip_base is None
        &&& self.transfer is None
        &&& self.ongoing is None
        &&& self.peeked == Some(value.token())
        &&& is_value_text(text, value, self.settings)
        &&& value.token().len() <= text.len()
        &&& rest.len() <= self.scan.pending.bytes.len()
        &&& self.scan.pending.bytes.take(rest.len() as int) == rest
        &&& value.needs_delimiter() ==> self.scan.pending.is_delimited(rest.len() as int)
        &&& value.is_allowed(self.settings, self.stack.len())
    }

    /// Whether a value of the given length was read between two states.
    pub open spec fn reads_to(self, next: ReaderModel, len: int) -> bool {
        &&& next.is_waiting()
        &&& next.scan.pending == self.scan.pending.after(len)
        &&& next.stack == self.stack
        &&& next.settings == self.settings
        &&& !next.is_empty
        &&& next.expects_member_name == next.is_in_object()
    }

    /// A value which has been peeked at is peeked at again.
    proof fn lemma_peek_again(self, text: Seq<u8>, value: Json)
        requires
            self.is_at_value(text, value),
        ensures
            self.peek() == (self, Outcome::Ready(value.token().value_type())),
    {
        assert(self.picked_up() == self);
    }

    proof fn lemma_read_json_null(self, text: Seq<u8>, fuel: nat)
        requires
            self.is_at_value(text, Json::Null),
            fuel > 0,
        ensures
            self.read_json(fuel).1 == Outcome::Ready(Json::Null),
            self.reads_to(self.read_json(fuel).0, text.len() - 4),
    {
        self.lemma_peek_again(text, Json::Null);
        self.lemma_read_null();
        assert(self.picked_up() == self);
        assert(self.scan.pending.bytes.skip(0) =~= self.scan.pending.bytes);
    }

    proof fn lemma_read_json_bool(self, text: Seq<u8>, value: bool, fuel: nat)
        requires
            self.is_at_value(text, Json::Bool(value)),
            fuel > 0,
        ensures
            self.read_json(fuel).1 == Outcome::Ready(Json::Bool(value)),
            self.reads_to(self.read_json(fuel).0, 0),
    {
        self.lemma_peek_again(text, Json::Bool(value));
        self.lemma_read_bool();
        assert(self.picked_up() == self);
        assert(self.scan.pending.bytes.skip(0) =~= self.scan.pending.bytes);
    }

    proof fn lemma_read_json_number(self, text: Seq<u8>, number: Seq<char>, fuel: nat)
        requires
            self.is_at_value(text, Json::Number(number)),
            fuel > 0,
        ensures
            self.read_json(fuel).1 == Outcome::Ready(Json::Number(number)),
            self.reads_to(self.read_json(fuel).0, text.len() as int),
    {
        self.lemma_peek_again(text, Json::Number(number));
        self.lemma_read_number(true);
        assert(self.picked_up() == self);
        assert(text.skip(0) =~= text);
        lemma_number_is_utf8(text);
        decode_utf8_encode_utf8(text);
        self.law_next_number_is_exact(text);
    }

    proof fn lemma_read_json_string(self, text: Seq<u8>, chars: Seq<char>, fuel: nat)
        requires
            self.is_at_value(text, Json::String(chars)),
            fuel > 0,
        ensures
            self.read_json(fuel).1 == Outcome::Ready(Json::String(chars)),
            self.reads_to(self.read_json(fuel).0, text.len() - 1),
    {
        self.lemma_peek_again(text, Json::String(chars));
        self.lemma_read_string(true);
        assert(self.picked_up() == self);
        let started = self.consume_peeked();
        assert(self.start_value(ValueType::String, false) == (
            started,
            Outcome::Ready(PeekedValue::StringStart),
        ));
        let reading = started.reading(Doing::ReadingString, true);
        let content = text.subrange(1, text.len() - 1);
        let rest = text.skip(1);
        assert(forall|i: int|
            0 <= i < rest.len() ==> self.scan.pending.bytes[i] == #[trigger] rest[i]);
        assert(reading.scan.pending.bytes.take(content.len() as int) =~= content);
        assert(reading.scan.pending.bytes[content.len() as int] == rest[content.len() as int]);
        lemma_string_content(reading.scan, content, chars);
        assert(Seq::<u8>::empty() + encode_utf8(chars) =~= encode_utf8(chars));
        encode_utf8_decode_utf8(chars);
        assert(self.scan.pending.bytes.skip(content.len() as int).skip(1)
            =~= self.scan.pending.bytes.skip(text.len() - 1));
    }
}

/// A number consists of ASCII characters.
proof fn lemma_number_is_utf8(text: Seq<u8>)
    requires
        is_json_number(text),
    ensures
        valid_utf8(text),
{
    super::numbers::law_number_grammar(text);
    lemma_readable_is_utf8(text);
}

proof fn lemma_readable_is_utf8(text: Seq<u8>)
    requires
        crate::number::NumberPart::Start.after(text) is Some,
    ensures
        valid_utf8(text),
    decreases text.len(),
{
    if text.len() > 0 {
        lemma_readable_is_utf8(text.drop_last());
        let byte = text.last();
        let digit = seq![byte];
        assert(byte < 0x80);
        assert(byte & 0x7F <= 0x7F) by (bit_vector);
        crate::utf8::lemma_single_scalar_valid(digit);
        valid_utf8_concat(text.drop_last(), digit);
        assert(text.drop_last() + digit =~= text);
    }
}

/// What follows the last element separates values.
proof fn lemma_end_gap_start(text: Seq<u8>, settings: ReaderSettings)
    requires
        is_end_gap(text, settings),
        text.len() > 0,
    ensures
        ascii::is_separator(text[0]),
{
    if super::gaps::is_gap(text, settings) {
        super::gaps::lemma_gap_start(text, settings);
    } else {
        let i = choose|i: int|
            0 <= i < text.len() && #[trigger] is_separated_until(
                text,
                ascii::COMMA,
                i,
                text.len() as int,
                settings,
            );
        if i > 0 {
            assert(text.take(i)[0] == text[0]);
            super::gaps::lemma_gap_start(text.take(i), settings);
        }
    }
}

/// What follows an array item separates values.
pub proof fn lemma_behind_item(text: Seq<u8>, items: Seq<Json>, from: int, settings: ReaderSettings)
    requires
        is_more_items_text(text, items, from, settings),
        text.len() > 0,
    ensures
        ascii::is_separator(text[0]),
{
    if 0 <= from < items.len() {
        let (i, j) = choose|i: int, j: int|
            0 <= i <= j <= text.len() && #[trigger] is_separated_until(
                text,
                ascii::COMMA,
                i,
                j,
                settings,
            ) && exists|k: int|
                j <= k <= text.len() && is_value_text(
                    #[trigger] text.subrange(j, k),
                    items[from],
                    settings,
                )
                    && is_more_items_text(text.skip(k), items, from + 1, settings);
        if i > 0 {
            assert(text.take(i)[0] == text[0]);
            super::gaps::lemma_gap_start(text.take(i), settings);
        }
    } else {
        lemma_end_gap_start(text, settings);
    }
}

/// What follows an object member separates values.
pub proof fn lemma_behind_member(
    text: Seq<u8>,
    members: Seq<Member>,
    from: int,
    settings: ReaderSettings,
)
    requires
        is_more_members_text(text, members, from, settings),
        text.len() > 0,
    ensures
        ascii::is_separator(text[0]),
{
    if 0 <= from < members.len() {
        let (i, j) = choose|i: int, j: int|
            0 <= i <= j <= text.len() && #[trigger] is_separated_until(
                text,
                ascii::COMMA,
                i,
                j,
                settings,
            ) && exists|k: int|
                j <= k <= text.len() && is_member_text(
                    #[trigger] text.subrange(j, k),
                    members[from],
                    settings,
                ) && is_more_members_text(text.skip(k), members, from + 1, settings);
        if i > 0 {
            assert(text.take(i)[0] == text[0]);
            super::gaps::lemma_gap_start(text.take(i), settings);
        }
    } else {
        lemma_end_gap_start(text, settings);
    }
}

impl ReaderModel {
    /// Whether the reader is within an array or object, in front of the text which remains of it up
    /// to its end.
    pub open spec fn is_inside(self, container: StackValue, text: Seq<u8>) -> bool {
        &&& self.is_waiting()
        &&& self.stack.len() > 0
        &&& self.stack.last() == container
        &&& self.expects_member_name == (container is Object)
        &&& text.len() < self.scan.pending.bytes.len()
        &&& self.scan.pending.bytes.take(text.len() as int) == text
        &&& self.scan.pending.bytes[text.len() as int] == match container {
            StackValue::Array => ascii::CLOSE_BRACKET,
            StackValue::Object => ascii::CLOSE_BRACE,
        }
    }

    /// Whether the array or object was read to its end between two states.
    pub open spec fn leaves_to(self, next: ReaderModel, len: int) -> bool {
        &&& next.is_waiting()
        &&& next.scan.pending == self.scan.pending.after(len)
        &&& next.stack == self.stack.drop_last()
        &&& next.settings == self.settings
        &&& !next.is_empty
        &&& next.expects_member_name == next.is_in_object()
    }

    /// The end of an array or object is read.
    proof fn lemma_read_end(self, container: StackValue, text: Seq<u8>)
        requires
            self.is_inside(container, text),
            if self.is_empty {
                super::gaps::is_gap(text, self.settings)
            } else {
                is_end_gap(text, self.settings)
            },
        ensures
            self.has_next().1 == Outcome::Ready(false),
            ({
                let next = self.has_next().0;
                let (behind, outcome) = match container {
                    StackValue::Array => next.end_array(),
                    StackValue::Object => next.end_object(),
                };
                &&& outcome == Outcome::Ready(())
                &&& self.leaves_to(behind, text.len() as int + 1)
            }),
    {
        reveal(ReaderModel::has_next);
        let count = text.len() as int;
        let token = match container {
            StackValue::Array => PeekedValue::ArrayEnd,
            StackValue::Object => PeekedValue::ObjectEnd,
        };
        let bytes = self.scan.pending.bytes;
        if super::gaps::is_gap(text, self.settings) {
            self.lemma_peek_here(count, token);
        } else {
            let i = choose|i: int|
                0 <= i < text.len() && #[trigger] is_separated_until(
                    text,
                    ascii::COMMA,
                    i,
                    count,
                    self.settings,
                );
            assert(bytes.take(i) =~= text.take(i));
            assert(bytes.subrange(i + 1, count) =~= text.subrange(i + 1, count));
            assert(bytes.take(count)[i] == bytes[i]);
            self.lemma_peek_behind_comma(i, count, token);
        }
        self.lemma_check_next();
        assert(self.picked_up() == self);
        let (next, _) = self.check_next();
        assert(self.peeks_at(next, token, count + 1));
        assert(next.picked_up() == next);
        next.lemma_end_container(container);
    }

    /// The text of an item which was peeked at.
    proof fn lemma_item_peeked(
        self,
        text: Seq<u8>,
        start: int,
        end: int,
        value: Json,
        next: ReaderModel,
    )
        requires
            self.is_waiting(),
            0 <= start <= end <= text.len() <= self.scan.pending.bytes.len(),
            self.scan.pending.bytes.take(text.len() as int) == text,
            is_value_text(text.subrange(start, end), value, self.settings),
            value.token().len() <= end - start,
            value.is_allowed(self.settings, self.stack.len()),
            value.needs_delimiter() ==> self.scan.pending.is_delimited(end),
            self.peeks_at(next, value.token(), start + value.token().len()),
            next.can_peek(),
            !next.expects_member_name,
        ensures
            next.is_at_value(text.subrange(start, end), value),
            next.scan.pending.after(end - start - value.token().len()) == self.scan.pending.after(
                end,
            ),
    {
        let item = text.subrange(start, end);
        let len = value.token().len() as int;
        let rest = item.skip(len);
        assert(next.scan.pending.bytes =~= self.scan.pending.bytes.skip(start + len));
        assert(next.scan.pending.bytes.take(rest.len() as int) =~= rest) by {
            assert forall|i: int| 0 <= i < rest.len() implies #[trigger] rest[i]
                == next.scan.pending.bytes[i] by {
                assert(rest[i] == text[start + len + i]);
                assert(self.scan.pending.bytes.take(text.len() as int)[start + len + i]
                    == text[start + len + i]);
            }
        }
        assert(self.scan.pending.bytes.skip(start + len).skip(end - start - len)
            =~= self.scan.pending.bytes.skip(end));
        if value.needs_delimiter() {
            assert(next.scan.pending.ahead(rest.len() as int) == self.scan.pending.ahead(end));
        }
    }

    /// The first token of an item is peeked at.
    proof fn lemma_item_token(self, text: Seq<u8>, start: int, end: int, value: Json)
        requires
            0 <= start <= end <= text.len() <= self.scan.pending.bytes.len(),
            self.scan.pending.bytes.take(text.len() as int) == text,
            is_value_text(text.subrange(start, end), value, self.settings),
            !self.expects_member_name,
            value.needs_delimiter() ==> self.scan.pending.is_delimited(end),
        ensures
            start < end,
            ({
                let byte = self.scan.pending.bytes[start];
                &&& self.scan.pending.after(start).token(byte, self.context()) == Token::Found(
                    value.token(),
                )
                &&& !ascii::is_blank(byte)
                &&& byte != ascii::SLASH
                &&& byte != ascii::COMMA
            }),
            value.token().len() <= end - start,
    {
        let item = text.subrange(start, end);
        let pending = self.scan.pending.after(start);
        assert(pending.bytes.take(item.len() as int) =~= item) by {
            assert forall|i: int| 0 <= i < item.len() implies #[trigger] item[i]
                == pending.bytes[i] by {
                assert(self.scan.pending.bytes.take(text.len() as int)[start + i] == text[start
                    + i]);
            }
        }
        if value.needs_delimiter() {
            assert(pending.ahead(item.len() as int) == self.scan.pending.ahead(end));
        }
        lemma_first_token(pending, item, value, self.context(), self.settings);
        assert(item[0] == self.scan.pending.bytes[start]);
    }

    /// A value is read which has been peeked at.
    pub proof fn lemma_read_json(self, text: Seq<u8>, value: Json, fuel: nat)
        requires
            self.is_at_value(text, value),
            fuel >= value.fuel(),
        ensures
            self.read_json(fuel).1 == Outcome::Ready(value),
            self.reads_to(self.read_json(fuel).0, text.len() - value.token().len()),
        decreases value, 2int, 0int,
    {
        match value {
            Json::Null => self.lemma_read_json_null(text, fuel),
            Json::Bool(value) => self.lemma_read_json_bool(text, value, fuel),
            Json::Number(number) => self.lemma_read_json_number(text, number, fuel),
            Json::String(chars) => self.lemma_read_json_string(text, chars, fuel),
            Json::Array(items) => {
                self.lemma_peek_again(text, value);
                self.lemma_begin_container(StackValue::Array);
                assert(self.picked_up() == self);
                let (inside, outcome) = self.begin_container(StackValue::Array);
                assert(self.begin_array() == (inside, outcome));
                let content = text.subrange(1, text.len() - 1);
                self.lemma_inside(StackValue::Array, text);
                inside.lemma_read_json_items(content, items, 0, (fuel - 1) as nat);
                assert(items.take(0) =~= Seq::empty());
                let next = self.read_json(fuel).0;
                assert(next.stack =~= self.stack);
            },
            Json::Object(members) => {
                self.lemma_peek_again(text, value);
                self.lemma_begin_container(StackValue::Object);
                assert(self.picked_up() == self);
                let (inside, outcome) = self.begin_container(StackValue::Object);
                assert(self.begin_object() == (inside, outcome));
                let content = text.subrange(1, text.len() - 1);
                self.lemma_inside(StackValue::Object, text);
                inside.lemma_read_json_members(content, members, 0, (fuel - 1) as nat);
                assert(members.take(0) =~= Seq::empty());
                let next = self.read_json(fuel).0;
                assert(next.stack =~= self.stack);
            },
        }
    }

    /// An array or object which was peeked at is entered.
    proof fn lemma_inside(self, container: StackValue, text: Seq<u8>)
        requires
            self.can_peek(),
            !self.expects_member_name,
            self.skip_base is None,
            self.transfer is None,
            self.ongoing is None,
            self.peeked == Some(
                match container {
                    StackValue::Array => PeekedValue::ArrayStart,
                    StackValue::Object => PeekedValue::ObjectStart,
                },
            ),
            text.len() >= 2,
            text.last() == match container {
                StackValue::Array => ascii::CLOSE_BRACKET,
                StackValue::Object => ascii::CLOSE_BRACE,
            },
            text.len() - 1 <= self.scan.pending.bytes.len(),
            self.scan.pending.bytes.take(text.len() - 1) == text.skip(1),
            !self.has_max_depth(),
        ensures
            ({
                let (inside, outcome) = self.begin_container(container);
                &&& outcome == Outcome::Ready(())
                &&& inside.is_inside(container, text.subrange(1, text.len() - 1))
                &&& inside.is_empty
                &&& inside.scan.pending == self.scan.pending
                &&& inside.stack == self.stack.push(container)
                &&& inside.settings == self.settings
            }),
    {
        self.lemma_begin_container(container);
        let content = text.subrange(1, text.len() - 1);
        let rest = text.skip(1);
        assert(forall|i: int|
            0 <= i < rest.len() ==> self.scan.pending.bytes[i] == #[trigger] rest[i]);
        assert(self.scan.pending.bytes.take(content.len() as int) =~= content);
        assert(self.scan.pending.bytes[content.len() as int] == rest[content.len() as int]);
    }

    /// The items of an array from an index on are read.
    pub proof fn lemma_read_json_items(self, text: Seq<u8>, items: Seq<Json>, from: int, fuel: nat)
        requires
            self.is_inside(StackValue::Array, text),
            0 <= from <= items.len(),
            fuel >= Json::items_fuel(items, from),
            self.is_empty <==> from == 0,
            if from == 0 {
                is_items_text(text, items, self.settings)
            } else {
                is_more_items_text(text, items, from, self.settings)
            },
            forall|i: int|
                0 <= i < items.len() ==> (#[trigger] items[i]).is_allowed(
                    self.settings,
                    self.stack.len(),
                ),
        ensures
            ({
                let (next, outcome) = self.read_json_items(items.take(from), fuel);
                &&& outcome == Outcome::Ready(Json::Array(items))
                &&& self.leaves_to(next, text.len() as int + 1)
            }),
        decreases items, 1int, items.len() - from,
    {
        if from == items.len() {
            self.lemma_read_end(StackValue::Array, text);
            assert(items.take(from) =~= items);
        } else {
            let value = items[from];
            let (start, end) = self.lemma_next_item(text, items, from);
            let (next, _) = self.has_next();
            let rest_fuel = (fuel - 1) as nat;
            next.lemma_read_json(text.subrange(start, end), value, rest_fuel);
            let (behind, _) = next.read_json(rest_fuel);
            self.lemma_behind_element(behind, StackValue::Array, text, end);
            behind.lemma_read_json_items(text.skip(end), items, from + 1, rest_fuel);
            assert(items.take(from).push(value) =~= items.take(from + 1));
            assert(self.read_json_items(items.take(from), fuel) == behind.read_json_items(
                items.take(from + 1),
                rest_fuel,
            ));
            let (last, _) = behind.read_json_items(items.take(from + 1), rest_fuel);
            assert(self.leaves_to(last, text.len() as int + 1));
        }
    }

    /// The next item is at hand.
    proof fn lemma_next_item(
        self,
        text: Seq<u8>,
        items: Seq<Json>,
        from: int,
    ) -> (range: (int, int))
        requires
            self.is_inside(StackValue::Array, text),
            0 <= from < items.len(),
            self.is_empty <==> from == 0,
            if from == 0 {
                is_items_text(text, items, self.settings)
            } else {
                is_more_items_text(text, items, from, self.settings)
            },
            items[from].is_allowed(self.settings, self.stack.len()),
        ensures
            0 <= range.0 <= range.1 <= text.len(),
            is_more_items_text(text.skip(range.1), items, from + 1, self.settings),
            self.has_next().1 == Outcome::Ready(true),
            ({
                let next = self.has_next().0;
                let item = text.subrange(range.0, range.1);
                &&& next.is_at_value(item, items[from])
                &&& next.scan.pending.after(item.len() - items[from].token().len())
                    == self.scan.pending.after(range.1)
                &&& next.stack == self.stack
                &&& next.settings == self.settings
            }),
    {
        reveal(ReaderModel::has_next);
        let value = items[from];
        let (start, end) = self.lemma_find_item(text, items, from);
        let pending = self.scan.pending;
        // The item is followed by something which separates values
        let behind_text = text.skip(end);
        if behind_text.len() > 0 {
            lemma_behind_item(behind_text, items, from + 1, self.settings);
            assert(pending.bytes.take(text.len() as int)[end] == text[end]);
            assert(behind_text[0] == pending.bytes[end]);
        }
        assert(pending.is_delimited(end));
        self.lemma_item_token(text, start, end, value);
        self.lemma_peek_item(text, items, from, start, end);
        self.lemma_check_next();
        assert(self.picked_up() == self);
        let (next, _) = self.check_next();
        assert(self.has_next() == (next, Outcome::Ready(true)));
        self.lemma_item_peeked(text, start, end, value, next);
        (start, end)
    }

    /// Behind an element the reader is in front of the remaining text.
    pub proof fn lemma_behind_element(
        self,
        behind: ReaderModel,
        container: StackValue,
        text: Seq<u8>,
        end: int,
    )
        requires
            self.is_inside(container, text),
            0 <= end <= text.len(),
            behind.is_waiting(),
            behind.stack == self.stack,
            behind.expects_member_name == behind.is_in_object(),
            behind.scan.pending == self.scan.pending.after(end),
        ensures
            behind.is_inside(container, text.skip(end)),
            behind.scan.pending.after(text.len() - end + 1) == self.scan.pending.after(
                text.len() as int + 1,
            ),
    {
        let bytes = self.scan.pending.bytes;
        let behind_text = text.skip(end);
        assert(bytes.skip(end).take(behind_text.len() as int) =~= behind_text) by {
            assert forall|i: int| 0 <= i < behind_text.len() implies #[trigger] behind_text[i]
                == bytes.skip(end)[i] by {
                assert(bytes.take(text.len() as int)[end + i] == text[end + i]);
            }
        }
        assert(bytes.skip(end).skip(text.len() - end + 1) =~= bytes.skip(text.len() as int + 1));
    }

    /// Where the text of the next item starts and ends.
    proof fn lemma_find_item(
        self,
        text: Seq<u8>,
        items: Seq<Json>,
        from: int,
    ) -> (range: (int, int))
        requires
            0 <= from < items.len(),
            if from == 0 {
                is_items_text(text, items, self.settings)
            } else {
                is_more_items_text(text, items, from, self.settings)
            },
        ensures
            0 <= range.0 <= range.1 <= text.len(),
            is_value_text(text.subrange(range.0, range.1), items[from], self.settings),
            is_more_items_text(text.skip(range.1), items, from + 1, self.settings),
            if from == 0 {
                super::gaps::is_gap(text.take(range.0), self.settings)
            } else {
                exists|i: int|
                    0 <= i <= range.0 && #[trigger] is_separated_until(
                        text,
                        ascii::COMMA,
                        i,
                        range.0,
                        self.settings,
                    )
            },
    {
        if from == 0 {
            let (i, j) = choose|i: int, j: int|
                0 <= i <= j <= text.len() && #[trigger] is_gap_until(text, i, j, self.settings)
                    && is_value_text(text.subrange(i, j), items[0], self.settings) && is_more_items_text(
                    text.skip(j),
                    items,
                    1,
                    self.settings,
                );
            (i, j)
        } else {
            let (i, j) = choose|i: int, j: int|
                0 <= i <= j <= text.len() && #[trigger] is_separated_until(
                    text,
                    ascii::COMMA,
                    i,
                    j,
                    self.settings,
                ) && exists|k: int|
                    j <= k <= text.len() && is_value_text(
                        #[trigger] text.subrange(j, k),
                        items[from],
                        self.settings,
                    ) && is_more_items_text(text.skip(k), items, from + 1, self.settings);
            let k = choose|k: int|
                j <= k <= text.len() && is_value_text(
                    #[trigger] text.subrange(j, k),
                    items[from],
                    self.settings,
                )
                    && is_more_items_text(text.skip(k), items, from + 1, self.settings);
            (j, k)
        }
    }

    /// The next item is peeked at.
    proof fn lemma_peek_item(
        self,
        text: Seq<u8>,
        items: Seq<Json>,
        from: int,
        start: int,
        end: int,
    )
        requires
            self.is_inside(StackValue::Array, text),
            0 <= from < items.len(),
            self.is_empty <==> from == 0,
            0 <= start < end <= text.len(),
            is_value_text(text.subrange(start, end), items[from], self.settings),
            if from == 0 {
                super::gaps::is_gap(text.take(start), self.settings)
            } else {
                exists|i: int|
                    0 <= i <= start && #[trigger] is_separated_until(
                        text,
                        ascii::COMMA,
                        i,
                        start,
                        self.settings,
                    )
            },
            ({
                let byte = self.scan.pending.bytes[start];
                &&& self.scan.pending.after(start).token(byte, self.context()) == Token::Found(
                    items[from].token(),
                )
                &&& !ascii::is_blank(byte)
                &&& byte != ascii::SLASH
                &&& byte != ascii::COMMA
            }),
        ensures
            self.peek_internal().1 == Outcome::Ready(items[from].token()),
            self.peeks_at(
                self.peek_internal().0,
                items[from].token(),
                start + items[from].token().len(),
            ),
    {
        let bytes = self.scan.pending.bytes;
        if from == 0 {
            assert(bytes.take(start) =~= text.take(start));
            self.lemma_peek_here(start, items[from].token());
        } else {
            let i = choose|i: int|
                0 <= i <= start && #[trigger] is_separated_until(
                    text,
                    ascii::COMMA,
                    i,
                    start,
                    self.settings,
                );
            assert(bytes.take(i) =~= text.take(i));
            assert(bytes.subrange(i + 1, start) =~= text.subrange(i + 1, start));
            assert(bytes.take(text.len() as int)[i] == text[i]);
            self.lemma_peek_behind_comma(i, start, items[from].token());
        }
    }

    pub proof fn lemma_read_json_members(
        self,
        text: Seq<u8>,
        members: Seq<Member>,
        from: int,
        fuel: nat,
    )
        requires
            self.is_inside(StackValue::Object, text),
            0 <= from <= members.len(),
            fuel >= Json::members_fuel(members, from),
            self.is_empty <==> from == 0,
            if from == 0 {
                is_members_text(text, members, self.settings)
            } else {
                is_more_members_text(text, members, from, self.settings)
            },
            forall|i: int|
                0 <= i < members.len() ==> (#[trigger] members[i]).value.is_allowed(
                    self.settings,
                    self.stack.len(),
                ),
        ensures
            ({
                let (next, outcome) = self.read_json_members(members.take(from), fuel);
                &&& outcome == Outcome::Ready(Json::Object(members))
                &&& self.leaves_to(next, text.len() as int + 1)
            }),
        decreases members, 1int, members.len() - from,
    {
        if from == members.len() {
            self.lemma_read_end(StackValue::Object, text);
            assert(members.take(from) =~= members);
        } else {
            let member = members[from];
            let rest_fuel = (fuel - 1) as nat;
            let (end, value_text) = self.lemma_next_member(text, members, from);
            let (next, _) = self.has_next();
            let (named, _) = next.next_name();
            let (at_value, _) = named.peek_internal();
            at_value.lemma_read_json(value_text, member.value, rest_fuel);
            named.lemma_read_peeked(at_value, rest_fuel, value_text, member.value);
            let (behind, _) = named.read_json(rest_fuel);
            self.lemma_behind_element(behind, StackValue::Object, text, end);
            behind.lemma_read_json_members(text.skip(end), members, from + 1, rest_fuel);
            assert(members.take(from).push(member) =~= members.take(from + 1));
            assert(member == Member { name: member.name, value: member.value });
            assert(self.read_json_members(members.take(from), fuel) == behind.read_json_members(
                members.take(from + 1),
                rest_fuel,
            ));
            let (last, _) = behind.read_json_members(members.take(from + 1), rest_fuel);
            assert(self.leaves_to(last, text.len() as int + 1));
        }
    }

    /// The next member is at hand: first its name, and then its value.
    ///
    /// Returns where the member ends, and the text of its value.
    proof fn lemma_next_member(self, text: Seq<u8>, members: Seq<Member>, from: int) -> (split: (
        int,
        Seq<u8>,
    ))
        requires
            self.is_inside(StackValue::Object, text),
            0 <= from < members.len(),
            self.is_empty <==> from == 0,
            if from == 0 {
                is_members_text(text, members, self.settings)
            } else {
                is_more_members_text(text, members, from, self.settings)
            },
            members[from].value.is_allowed(self.settings, self.stack.len()),
        ensures
            0 <= split.0 <= text.len(),
            is_more_members_text(text.skip(split.0), members, from + 1, self.settings),
            self.has_next().1 == Outcome::Ready(true),
            self.has_next().0.next_name().1 == Outcome::Ready(members[from].name),
            ({
                let named = self.has_next().0.next_name().0;
                let (at_value, outcome) = named.peek_internal();
                let value = members[from].value;
                &&& named.is_waiting()
                &&& named.expects_member_value()
                &&& named.stack == self.stack
                &&& named.settings == self.settings
                &&& outcome == Outcome::Ready(value.token())
                &&& at_value.is_at_value(split.1, value)
                &&& at_value.stack == self.stack
                &&& at_value.settings == self.settings
                &&& at_value.scan.pending.after(split.1.len() - value.token().len())
                    == self.scan.pending.after(split.0)
            }),
    {
        let member = members[from];
        let (start, end) = self.lemma_find_member(text, members, from);
        let member_text = text.subrange(start, end);
        let (name_end, colon, value_start) = lemma_split_member(member_text, member, self.settings);
        let pending = self.scan.pending;
        let behind_text = text.skip(end);
        if behind_text.len() > 0 {
            lemma_behind_member(behind_text, members, from + 1, self.settings);
            assert(pending.bytes.take(text.len() as int)[end] == text[end]);
            assert(behind_text[0] == pending.bytes[end]);
        }
        assert(pending.is_delimited(end));
        self.lemma_member_named(text, members, from, start, end, name_end);
        let (named, _) = self.has_next().0.next_name();
        let named_text = text.skip(start + name_end);
        let value_from = value_start - name_end;
        let value_to = end - start - name_end;
        assert(named_text.subrange(value_from, value_to) =~= member_text.skip(value_start));
        assert(named.scan.pending.ahead(value_to) == pending.ahead(end));
        assert(named_text.take(value_to) =~= member_text.skip(name_end));
        named.lemma_member_value(
            named_text,
            colon - name_end,
            value_from,
            value_to,
            member.value,
        );
        assert(pending.bytes.skip(start + name_end).skip(value_to) =~= pending.bytes.skip(end));
        (end, member_text.skip(value_start))
    }

    /// The value of a member whose name was read is at hand.
    pub proof fn lemma_member_value(
        self,
        text: Seq<u8>,
        colon: int,
        start: int,
        end: int,
        value: Json,
    )
        requires
            self.is_waiting(),
            self.expects_member_value(),
            0 <= colon <= start <= end <= text.len() <= self.scan.pending.bytes.len(),
            self.scan.pending.bytes.take(text.len() as int) == text,
            is_separated_until(text.take(end), ascii::COLON, colon, start, self.settings),
            is_value_text(text.subrange(start, end), value, self.settings),
            value.needs_delimiter() ==> self.scan.pending.is_delimited(end),
            value.is_allowed(self.settings, self.stack.len()),
        ensures
            ({
                let (at_value, outcome) = self.peek_internal();
                let value_text = text.subrange(start, end);
                &&& outcome == Outcome::Ready(value.token())
                &&& at_value.is_at_value(value_text, value)
                &&& at_value.stack == self.stack
                &&& at_value.settings == self.settings
                &&& at_value.scan.pending.after(value_text.len() - value.token().len())
                    == self.scan.pending.after(end)
            }),
    {
        self.lemma_item_token(text, start, end, value);
        self.lemma_peek_member_value(text.take(end), text, colon, start, value.token());
        let (at_value, _) = self.peek_internal();
        self.lemma_peek_internal();
        self.lemma_item_peeked(text, start, end, value, at_value);
    }

    /// The name of the next member is read.
    proof fn lemma_member_named(
        self,
        text: Seq<u8>,
        members: Seq<Member>,
        from: int,
        start: int,
        end: int,
        name_end: int,
    )
        requires
            self.is_inside(StackValue::Object, text),
            0 <= from < members.len(),
            self.is_empty <==> from == 0,
            0 <= start <= end <= text.len(),
            2 <= name_end <= end - start,
            is_string_text(text.subrange(start, end).take(name_end), members[from].name),
            if from == 0 {
                super::gaps::is_gap(text.take(start), self.settings)
            } else {
                exists|i: int|
                    0 <= i <= start && #[trigger] is_separated_until(
                        text,
                        ascii::COMMA,
                        i,
                        start,
                        self.settings,
                    )
            },
        ensures
            self.has_next().1 == Outcome::Ready(true),
            self.has_next().0.next_name().1 == Outcome::Ready(members[from].name),
            ({
                let named = self.has_next().0.next_name().0;
                let named_text = text.skip(start + name_end);
                &&& named.is_waiting()
                &&& named.expects_member_value()
                &&& named.stack == self.stack
                &&& named.settings == self.settings
                &&& named.scan.pending == self.scan.pending.after(start + name_end)
                &&& named.scan.pending.bytes.take(named_text.len() as int) == named_text
            }),
    {
        reveal(ReaderModel::has_next);
        let pending = self.scan.pending;
        self.lemma_peek_member(text, members, from, start, end, name_end);
        self.lemma_check_next();
        assert(self.picked_up() == self);
        let (next, _) = self.check_next();
        assert(self.has_next() == (next, Outcome::Ready(true)));
        let name_text = text.subrange(start, end).take(name_end);
        assert(next.scan.pending.bytes =~= pending.bytes.skip(start + 1));
        assert(next.scan.pending.bytes.take(name_end - 1) =~= name_text.skip(1)) by {
            assert forall|i: int| 0 <= i < name_end - 1 implies #[trigger] name_text.skip(1)[i]
                == next.scan.pending.bytes[i] by {
                assert(pending.bytes.take(text.len() as int)[start + 1 + i] == text[start + 1 + i]);
            }
        }
        next.lemma_read_member_name(name_text, members[from].name);
        let (named, _) = next.next_name();
        assert(pending.bytes.skip(start + 1).skip(name_end - 1) =~= pending.bytes.skip(
            start + name_end,
        ));
        let named_text = text.skip(start + name_end);
        assert(named.scan.pending.bytes.take(named_text.len() as int) =~= named_text) by {
            assert forall|i: int| 0 <= i < named_text.len() implies #[trigger] named_text[i]
                == named.scan.pending.bytes[i] by {
                assert(pending.bytes.take(text.len() as int)[start + name_end + i] == text[start
                    + name_end + i]);
            }
        }
    }

    /// A value is read the same way whether or not it has been peeked at before.
    pub proof fn lemma_read_peeked(self, peeked: ReaderModel, fuel: nat, text: Seq<u8>, value: Json)
        requires
            self.is_waiting(),
            !self.expects_member_name,
            self.peek_internal() == (peeked, Outcome::Ready(value.token())),
            peeked.is_at_value(text, value),
            fuel > 0,
        ensures
            self.read_json(fuel) == peeked.read_json(fuel),
    {
        peeked.lemma_peek_again(text, value);
        assert(self.picked_up() == self);
        assert(self.peek() == peeked.peek());
    }

    /// Where the text of the next member starts and ends.
    proof fn lemma_find_member(self, text: Seq<u8>, members: Seq<Member>, from: int) -> (range: (
        int,
        int,
    ))
        requires
            0 <= from < members.len(),
            if from == 0 {
                is_members_text(text, members, self.settings)
            } else {
                is_more_members_text(text, members, from, self.settings)
            },
        ensures
            0 <= range.0 <= range.1 <= text.len(),
            is_member_text(text.subrange(range.0, range.1), members[from], self.settings),
            is_more_members_text(text.skip(range.1), members, from + 1, self.settings),
            if from == 0 {
                super::gaps::is_gap(text.take(range.0), self.settings)
            } else {
                exists|i: int|
                    0 <= i <= range.0 && #[trigger] is_separated_until(
                        text,
                        ascii::COMMA,
                        i,
                        range.0,
                        self.settings,
                    )
            },
    {
        if from == 0 {
            let (i, j) = choose|i: int, j: int|
                0 <= i <= j <= text.len() && #[trigger] is_gap_until(text, i, j, self.settings)
                    && is_member_text(text.subrange(i, j), members[0], self.settings) && is_more_members_text(
                    text.skip(j),
                    members,
                    1,
                    self.settings,
                );
            (i, j)
        } else {
            let (i, j) = choose|i: int, j: int|
                0 <= i <= j <= text.len() && #[trigger] is_separated_until(
                    text,
                    ascii::COMMA,
                    i,
                    j,
                    self.settings,
                ) && exists|k: int|
                    j <= k <= text.len() && is_member_text(
                        #[trigger] text.subrange(j, k),
                        members[from],
                        self.settings,
                    ) && is_more_members_text(text.skip(k), members, from + 1, self.settings);
            let k = choose|k: int|
                j <= k <= text.len() && is_member_text(
                    #[trigger] text.subrange(j, k),
                    members[from],
                    self.settings,
                ) && is_more_members_text(text.skip(k), members, from + 1, self.settings);
            (j, k)
        }
    }

    /// The name of the next member is peeked at.
    proof fn lemma_peek_member(
        self,
        text: Seq<u8>,
        members: Seq<Member>,
        from: int,
        start: int,
        end: int,
        name_end: int,
    )
        requires
            self.is_inside(StackValue::Object, text),
            0 <= from < members.len(),
            self.is_empty <==> from == 0,
            0 <= start <= end <= text.len(),
            0 <= name_end <= end - start,
            is_string_text(text.subrange(start, end).take(name_end), members[from].name),
            if from == 0 {
                super::gaps::is_gap(text.take(start), self.settings)
            } else {
                exists|i: int|
                    0 <= i <= start && #[trigger] is_separated_until(
                        text,
                        ascii::COMMA,
                        i,
                        start,
                        self.settings,
                    )
            },
        ensures
            self.peek_internal().1 == Outcome::Ready(PeekedValue::NameStart),
            self.peeks_at(self.peek_internal().0, PeekedValue::NameStart, start + 1),
    {
        let bytes = self.scan.pending.bytes;
        assert(text.subrange(start, end).take(name_end)[0] == text[start]);
        assert(bytes.take(text.len() as int)[start] == text[start]);
        if from == 0 {
            assert(bytes.take(start) =~= text.take(start));
            self.lemma_peek_here(start, PeekedValue::NameStart);
        } else {
            let i = choose|i: int|
                0 <= i <= start && #[trigger] is_separated_until(
                    text,
                    ascii::COMMA,
                    i,
                    start,
                    self.settings,
                );
            assert(bytes.take(i) =~= text.take(i));
            assert(bytes.subrange(i + 1, start) =~= text.subrange(i + 1, start));
            assert(bytes.take(text.len() as int)[i] == text[i]);
            self.lemma_peek_behind_comma(i, start, PeekedValue::NameStart);
        }
    }

    /// A member name which was peeked at is read.
    proof fn lemma_read_member_name(self, text: Seq<u8>, name: Seq<char>)
        requires
            self.can_peek(),
            self.skip_base is None,
            self.transfer is None,
            self.ongoing is None,
            self.expects_member_name,
            self.peeked == Some(PeekedValue::NameStart),
            is_string_text(text, name),
            text.len() - 1 <= self.scan.pending.bytes.len(),
            self.scan.pending.bytes.take(text.len() - 1) == text.skip(1),
        ensures
            ({
                let (next, outcome) = self.next_name();
                &&& outcome == Outcome::Ready(name)
                &&& next.is_waiting()
                &&& next.expects_member_value()
                &&& next.stack == self.stack
                &&& next.settings == self.settings
                &&& next.scan.pending == self.scan.pending.after(text.len() - 1)
            }),
    {
        reveal(ReaderModel::next_name);
        self.lemma_read_name(true);
        assert(self.picked_up() == self);
        assert(self.check_next() == (self, Outcome::Ready(true)));
        let started = ReaderModel { expects_member_name: false, ..self.consume_peeked() };
        assert(self.before_name() == (started, Outcome::Ready(())));
        let reading = started.reading(Doing::ReadingName, true);
        let content = text.subrange(1, text.len() - 1);
        let rest = text.skip(1);
        assert(forall|i: int|
            0 <= i < rest.len() ==> self.scan.pending.bytes[i] == #[trigger] rest[i]);
        assert(reading.scan.pending.bytes.take(content.len() as int) =~= content);
        assert(reading.scan.pending.bytes[content.len() as int] == rest[content.len() as int]);
        lemma_string_content(reading.scan, content, name);
        assert(Seq::<u8>::empty() + encode_utf8(name) =~= encode_utf8(name));
        encode_utf8_decode_utf8(name);
        assert(self.scan.pending.bytes.skip(content.len() as int).skip(1)
            =~= self.scan.pending.bytes.skip(text.len() - 1));
    }

    /// The first token of a member value is peeked at.
    proof fn lemma_peek_member_value(
        self,
        behind_name: Seq<u8>,
        text: Seq<u8>,
        colon: int,
        start: int,
        token: PeekedValue,
    )
        requires
            self.is_waiting(),
            self.expects_member_value(),
            behind_name.len() <= text.len() <= self.scan.pending.bytes.len(),
            text.take(behind_name.len() as int) == behind_name,
            self.scan.pending.bytes.take(text.len() as int) == text,
            0 <= colon <= start <= behind_name.len(),
            start < text.len(),
            is_separated_until(behind_name, ascii::COLON, colon, start, self.settings),
            ({
                let byte = self.scan.pending.bytes[start];
                &&& self.scan.pending.after(start).token(byte, self.context()) == Token::Found(
                    token,
                )
                &&& !ascii::is_blank(byte)
                &&& byte != ascii::SLASH
                &&& byte != ascii::COMMA
            }),
        ensures
            self.peek_internal().1 == Outcome::Ready(token),
            self.peeks_at(self.peek_internal().0, token, start + token.len()),
    {
        let bytes = self.scan.pending.bytes;
        assert(forall|i: int|
            0 <= i < behind_name.len() ==> bytes[i] == #[trigger] behind_name[i]) by {
            assert forall|i: int| 0 <= i < behind_name.len() implies bytes[i]
                == #[trigger] behind_name[i] by {
                assert(text.take(behind_name.len() as int)[i] == text[i]);
                assert(bytes.take(text.len() as int)[i] == text[i]);
            }
        }
        assert(bytes.take(colon) =~= behind_name.take(colon));
        assert(bytes.subrange(colon + 1, start) =~= behind_name.subrange(colon + 1, start));
        self.lemma_peek_behind_colon(colon, start, token);
    }
}

/// Where the name of a member ends, and where the colon and the value are.
proof fn lemma_split_member(
    text: Seq<u8>,
    member: Member,
    settings: ReaderSettings,
) -> (split: (int, int, int))
    requires
        is_member_text(text, member, settings),
    ensures
        2 <= split.0 <= split.1 <= split.2 <= text.len(),
        is_string_text(text.take(split.0), member.name),
        is_separated_until(
            text.skip(split.0),
            ascii::COLON,
            split.1 - split.0,
            split.2 - split.0,
            settings,
        ),
        is_value_text(text.skip(split.2), member.value, settings),
{
    let i = choose|i: int|
        0 <= i <= text.len() && is_string_text(#[trigger] text.take(i), member.name) && exists|
            j: int,
            k: int,
        |
            i <= j <= k <= text.len() && #[trigger] is_separated_until(
                text.skip(i),
                ascii::COLON,
                j - i,
                k - i,
                settings,
            ) && is_value_text(text.skip(k), member.value, settings);
    let (j, k) = choose|j: int, k: int|
        i <= j <= k <= text.len() && #[trigger] is_separated_until(
            text.skip(i),
            ascii::COLON,
            j - i,
            k - i,
            settings,
        ) && is_value_text(text.skip(k), member.value, settings);
    (i, j, k)
}

/// Whether the text is a JSON document which represents the value: the text of the value with
/// whitespace around it.
pub open spec fn is_document(text: Seq<u8>, value: Json, settings: ReaderSettings) -> bool {
    exists|i: int, j: int|
        0 <= i <= j <= text.len() && #[trigger] is_gap_until(text, i, j, settings) && is_value_text(
            text.subrange(i, j),
            value,
            settings,
        ) && super::gaps::is_trailing_gap(text.skip(j), settings)
}

/// The value of a document is read.
proof fn lemma_read_document(reader: ReaderModel, i: int, j: int, value: Json, fuel: nat)
    requires
        reader.is_waiting(),
        reader.stack.len() == 0,
        reader.is_empty,
        reader.scan.pending.eof,
        ({
            let text = reader.scan.pending.bytes;
            &&& 0 <= i <= j <= text.len()
            &&& super::gaps::is_gap(text.take(i), reader.settings)
            &&& is_value_text(text.subrange(i, j), value, reader.settings)
            &&& super::gaps::is_trailing_gap(text.skip(j), reader.settings)
        }),
        value.is_allowed(reader.settings, 0),
        fuel >= value.fuel(),
    ensures
        reader.read_json(fuel).1 == Outcome::Ready(value),
        reader.reads_to(reader.read_json(fuel).0, j),
{
    let text = reader.scan.pending.bytes;
    assert(text.take(text.len() as int) =~= text);
    if j < text.len() {
        assert(text.skip(j)[0] == text[j]);
        super::gaps::lemma_gap_start(text.skip(j), reader.settings);
    }
    assert(reader.scan.pending.is_delimited(j));
    reader.lemma_item_token(text, i, j, value);
    reader.lemma_peek_here(i, value.token());
    let (peeked, _) = reader.peek_internal();
    reader.lemma_peek_internal();
    reader.lemma_item_peeked(text, i, j, value, peeked);
    let value_text = text.subrange(i, j);
    peeked.lemma_read_json(value_text, value, fuel);
    reader.lemma_read_peeked(peeked, fuel, value_text, value);
}

/// Reading a JSON document gives back the value which it represents, and afterwards there is
/// nothing but whitespace and comments left: whichever way the value is written, as long as the
/// settings allow it.
pub proof fn law_document_is_read_back(
    settings: ReaderSettings,
    text: Seq<u8>,
    value: Json,
    fuel: nat,
)
    requires
        is_document(text, value, settings),
        value.is_allowed(settings, 0),
        text.len() <= u64::MAX,
        fuel >= value.fuel(),
    ensures
        ({
            let reader = ReaderModel::start(settings).extended(text, true);
            let (behind, outcome) = reader.read_json(fuel);
            &&& reader.valid()
            &&& outcome == Outcome::Ready(value)
            &&& behind.misuse(Operation::ConsumeTrailingWhitespace) is None
            &&& behind.consume_trailing_whitespace().1 == Outcome::Ready(())
        }),
{
    let reader = ReaderModel::start(settings).extended(text, true);
    let (i, j) = choose|i: int, j: int|
        0 <= i <= j <= text.len() && #[trigger] is_gap_until(text, i, j, settings) && is_value_text(
            text.subrange(i, j),
            value,
            settings,
        ) && super::gaps::is_trailing_gap(text.skip(j), settings);
    assert(reader.scan.pending.bytes =~= text);
    lemma_read_document(reader, i, j, value, fuel);
    let (behind, _) = reader.read_json(fuel);
    assert(behind.picked_up() == behind);
    super::gaps::lemma_trailing_gap(behind.scan, settings);
}

} // verus!
