//! Laws on numbers: exactly the numbers of JSON are read, and exactly those with a moderate
//! length and exponent are supported if number values are restricted.

use vstd::prelude::*;

use crate::ascii;
use crate::error::{Outcome, Problem, ValueType};
use crate::lookahead::Ahead;
use crate::model::{Doing, Operation, ReaderModel};
use crate::number::{NumberEnd, NumberPart, NumberProgress, NumberStep};
use crate::scan::ScanState;

verus! {

/// Whether the bytes are one or more decimal digits.
pub open spec fn is_digits(bytes: Seq<u8>) -> bool {
    &&& bytes.len() > 0
    &&& forall|i: int| 0 <= i < bytes.len() ==> ascii::is_digit(#[trigger] bytes[i])
}

/// Whether the bytes are the integer part of a number, without sign: digits without leading 0.
pub open spec fn is_unsigned_integer(bytes: Seq<u8>) -> bool {
    &&& is_digits(bytes)
    &&& bytes[0] == ascii::DIGIT_0 ==> bytes.len() == 1
}

/// Whether the bytes are the integer part of a number.
pub open spec fn is_integer(bytes: Seq<u8>) -> bool {
    ||| is_unsigned_integer(bytes)
    ||| bytes.len() > 0 && bytes[0] == ascii::MINUS && is_unsigned_integer(bytes.skip(1))
}

/// Whether the bytes are the fraction of a number, which may be missing.
pub open spec fn is_fraction(bytes: Seq<u8>) -> bool {
    ||| bytes.len() == 0
    ||| bytes[0] == ascii::POINT && is_digits(bytes.skip(1))
}

/// Whether the bytes are the exponent of a number, which may be missing.
pub open spec fn is_exponent(bytes: Seq<u8>) -> bool {
    ||| bytes.len() == 0
    ||| {
        &&& bytes[0] == ascii::LOWER_E || bytes[0] == ascii::UPPER_E
        &&& {
            ||| is_digits(bytes.skip(1))
            ||| {
                &&& bytes.len() > 1
                &&& bytes[1] == ascii::PLUS || bytes[1] == ascii::MINUS
                &&& is_digits(bytes.skip(2))
            }
        }
    }
}

/// Whether the bytes are a JSON number: integer part, fraction and exponent.
pub open spec fn is_json_number(bytes: Seq<u8>) -> bool {
    exists|i: int, j: int|
        0 <= i <= j <= bytes.len() && #[trigger] is_split_number(bytes, i, j)
}

/// Whether the bytes are a JSON number whose fraction starts at `i` and whose exponent starts at
/// `j`.
pub open spec fn is_split_number(bytes: Seq<u8>, i: int, j: int) -> bool {
    &&& is_integer(bytes.take(i))
    &&& is_fraction(bytes.subrange(i, j))
    &&& is_exponent(bytes.skip(j))
}

impl NumberPart {
    /// The part to which the last of some bytes belongs which follow this part, if the grammar
    /// allows these bytes there.
    pub open spec fn after(self, bytes: Seq<u8>) -> Option<NumberPart>
        decreases bytes.len(),
    {
        if bytes.len() == 0 {
            Some(self)
        } else {
            match self.after(bytes.drop_last()) {
                Some(part) => part.next(bytes.last()),
                None => None,
            }
        }
    }

    /// The bytes can be read one after the other.
    pub proof fn lemma_after_first(self, bytes: Seq<u8>)
        requires
            bytes.len() > 0,
        ensures
            self.after(bytes) == match self.next(bytes[0]) {
                Some(part) => part.after(bytes.skip(1)),
                None => None,
            },
        decreases bytes.len(),
    {
        if bytes.len() == 1 {
            assert(bytes.drop_last() =~= Seq::empty());
            assert(bytes.skip(1) =~= Seq::empty());
        } else {
            self.lemma_after_first(bytes.drop_last());
            assert(bytes.drop_last().skip(1) =~= bytes.skip(1).drop_last());
        }
    }
}

/// Digits stay within a part which consists of digits.
proof fn lemma_digits(part: NumberPart, bytes: Seq<u8>)
    requires
        part is Integer || part is Fraction || part is Exponent,
        forall|i: int| 0 <= i < bytes.len() ==> ascii::is_digit(#[trigger] bytes[i]),
    ensures
        part.after(bytes) == Some(part),
    decreases bytes.len(),
{
    if bytes.len() > 0 {
        lemma_digits(part, bytes.drop_last());
    }
}

/// What was read in front of each part of a number.
pub open spec fn has_part(bytes: Seq<u8>, part: NumberPart) -> bool {
    match part {
        NumberPart::Start => bytes.len() == 0,
        NumberPart::Minus => bytes =~= seq![ascii::MINUS],
        NumberPart::Zero => is_integer(bytes) && bytes.last() == ascii::DIGIT_0 && (bytes.len() == 1
            || bytes =~= seq![ascii::MINUS, ascii::DIGIT_0]),
        NumberPart::Integer => is_integer(bytes) && bytes[0] != ascii::DIGIT_0 && (bytes[0]
            == ascii::MINUS ==> bytes[1] != ascii::DIGIT_0),
        NumberPart::Point => is_integer(bytes.drop_last()) && bytes.len() > 0 && bytes.last()
            == ascii::POINT,
        NumberPart::Fraction => exists|i: int|
            0 <= i < bytes.len() && is_integer(#[trigger] bytes.take(i)) && bytes[i] == ascii::POINT
                && is_digits(bytes.skip(i + 1)),
        NumberPart::ExponentMark => exists|i: int, j: int|
            0 <= i <= j && j + 1 == bytes.len() && #[trigger] is_exponent_start(bytes, i, j),
        NumberPart::ExponentSign => exists|i: int, j: int|
            0 <= i <= j && j + 2 == bytes.len() && #[trigger] is_exponent_start(bytes, i, j) && (
            bytes[j + 1] == ascii::PLUS || bytes[j + 1] == ascii::MINUS),
        NumberPart::Exponent => exists|i: int, j: int|
            0 <= i <= j && j + 1 < bytes.len() && #[trigger] is_exponent_start(bytes, i, j)
                && is_exponent(bytes.skip(j)),
    }
}

/// Whether the exponent of a number starts at `j` and its fraction at `i`.
pub open spec fn is_exponent_start(bytes: Seq<u8>, i: int, j: int) -> bool {
    &&& is_integer(bytes.take(i))
    &&& is_fraction(bytes.subrange(i, j))
    &&& bytes[j] == ascii::LOWER_E || bytes[j] == ascii::UPPER_E
}

proof fn lemma_is_digits_push(bytes: Seq<u8>)
    requires
        bytes.len() > 0,
        ascii::is_digit(bytes.last()),
        bytes.len() == 1 || is_digits(bytes.drop_last()),
    ensures
        is_digits(bytes),
{
    assert forall|i: int| 0 <= i < bytes.len() implies ascii::is_digit(#[trigger] bytes[i]) by {
        if i < bytes.len() - 1 {
            assert(bytes.drop_last()[i] == bytes[i]);
        }
    }
}

/// The parts of a number are found where its grammar says.
#[verifier::rlimit(50)]
proof fn lemma_has_part(bytes: Seq<u8>)
    ensures
        NumberPart::Start.after(bytes) matches Some(part) ==> has_part(bytes, part),
    decreases bytes.len(),
{
    if bytes.len() > 0 {
        let before = bytes.drop_last();
        lemma_has_part(before);
        if let Some(part) = NumberPart::Start.after(before) {
            let byte = bytes.last();
            if let Some(next) = part.next(byte) {
                lemma_has_next_part(before, part, byte, next);
                assert(before.push(byte) =~= bytes);
            }
        }
    }
}

#[verifier::rlimit(100)]
proof fn lemma_has_next_part(before: Seq<u8>, part: NumberPart, byte: u8, next: NumberPart)
    requires
        has_part(before, part),
        part.next(byte) == Some(next),
    ensures
        has_part(before.push(byte), next),
{
    let bytes = before.push(byte);
    assert(bytes.drop_last() =~= before);
    match next {
        NumberPart::Start => {},
        NumberPart::Minus => {
            assert(bytes =~= seq![ascii::MINUS]);
        },
        NumberPart::Zero => {
            if part is Start {
                assert(is_unsigned_integer(bytes));
            } else {
                assert(bytes =~= seq![ascii::MINUS, ascii::DIGIT_0]);
                assert(bytes.skip(1) =~= seq![ascii::DIGIT_0]);
                assert(is_unsigned_integer(bytes.skip(1)));
            }
        },
        NumberPart::Integer => {
            if part is Start {
                lemma_is_digits_push(bytes);
            } else if part is Minus {
                assert(bytes.skip(1) =~= seq![byte]);
                lemma_is_digits_push(bytes.skip(1));
            } else if before[0] == ascii::MINUS {
                assert(bytes.skip(1).drop_last() =~= before.skip(1));
                lemma_is_digits_push(bytes.skip(1));
                assert(bytes.skip(1)[0] == before.skip(1)[0]);
            } else {
                lemma_is_digits_push(bytes);
            }
        },
        NumberPart::Point => {},
        NumberPart::Fraction => {
            if part is Point {
                let i = before.len() - 1;
                assert(bytes.take(i) =~= before.drop_last());
                assert(bytes.skip(i + 1) =~= seq![byte]);
                lemma_is_digits_push(bytes.skip(i + 1));
                assert(is_integer(bytes.take(i)));
            } else {
                let i = choose|i: int|
                    0 <= i < before.len() && is_integer(#[trigger] before.take(i)) && before[i]
                        == ascii::POINT && is_digits(before.skip(i + 1));
                assert(bytes.take(i) =~= before.take(i));
                assert(bytes.skip(i + 1).drop_last() =~= before.skip(i + 1));
                lemma_is_digits_push(bytes.skip(i + 1));
                assert(is_integer(bytes.take(i)));
            }
        },
        NumberPart::ExponentMark => {
            let j = before.len() as int;
            if part is Fraction {
                let i = choose|i: int|
                    0 <= i < before.len() && is_integer(#[trigger] before.take(i)) && before[i]
                        == ascii::POINT && is_digits(before.skip(i + 1));
                assert(bytes.take(i) =~= before.take(i));
                assert(bytes.subrange(i, j) =~= before.skip(i));
                assert(before.skip(i).skip(1) =~= before.skip(i + 1));
                assert(is_exponent_start(bytes, i, j));
            } else {
                assert(bytes.take(j) =~= before);
                assert(bytes.subrange(j, j) =~= Seq::empty());
                assert(is_exponent_start(bytes, j, j));
            }
        },
        NumberPart::ExponentSign => {
            let (i, j) = choose|i: int, j: int|
                0 <= i <= j && j + 1 == before.len() && #[trigger] is_exponent_start(before, i, j);
            assert(bytes.take(i) =~= before.take(i));
            assert(bytes.subrange(i, j) =~= before.subrange(i, j));
            assert(is_exponent_start(bytes, i, j));
        },
        NumberPart::Exponent => {
            if part is ExponentMark {
                let (i, j) = choose|i: int, j: int|
                    0 <= i <= j && j + 1 == before.len() && #[trigger] is_exponent_start(
                        before,
                        i,
                        j,
                    );
                assert(bytes.take(i) =~= before.take(i));
                assert(bytes.subrange(i, j) =~= before.subrange(i, j));
                assert(is_exponent_start(bytes, i, j));
                assert(bytes.skip(j).skip(1) =~= seq![byte]);
                lemma_is_digits_push(bytes.skip(j).skip(1));
            } else if part is ExponentSign {
                let (i, j) = choose|i: int, j: int|
                    0 <= i <= j && j + 2 == before.len() && #[trigger] is_exponent_start(
                        before,
                        i,
                        j,
                    ) && (before[j + 1] == ascii::PLUS || before[j + 1] == ascii::MINUS);
                assert(bytes.take(i) =~= before.take(i));
                assert(bytes.subrange(i, j) =~= before.subrange(i, j));
                assert(is_exponent_start(bytes, i, j));
                assert(bytes.skip(j).skip(2) =~= seq![byte]);
                lemma_is_digits_push(bytes.skip(j).skip(2));
            } else {
                let (i, j) = choose|i: int, j: int|
                    0 <= i <= j && j + 1 < before.len() && #[trigger] is_exponent_start(before, i, j)
                        && is_exponent(before.skip(j));
                assert(bytes.take(i) =~= before.take(i));
                assert(bytes.subrange(i, j) =~= before.subrange(i, j));
                assert(is_exponent_start(bytes, i, j));
                let exponent = bytes.skip(j);
                if is_digits(before.skip(j).skip(1)) {
                    assert(exponent.skip(1).drop_last() =~= before.skip(j).skip(1));
                    lemma_is_digits_push(exponent.skip(1));
                } else {
                    assert(exponent.skip(2).drop_last() =~= before.skip(j).skip(2));
                    lemma_is_digits_push(exponent.skip(2));
                }
            }
        },
    }
}

/// The integer part of a number can be read completely.
proof fn lemma_read_integer(bytes: Seq<u8>)
    requires
        is_integer(bytes),
    ensures
        NumberPart::Start.after(bytes) matches Some(part) && (part is Zero || part is Integer),
{
    NumberPart::Start.lemma_after_first(bytes);
    let rest = bytes.skip(1);
    if is_unsigned_integer(bytes) {
        if bytes[0] == ascii::DIGIT_0 {
            assert(rest =~= Seq::empty());
        } else {
            assert forall|i: int| 0 <= i < rest.len() implies ascii::is_digit(#[trigger] rest[i]) by {
                assert(rest[i] == bytes[i + 1]);
            }
            lemma_digits(NumberPart::Integer, rest);
        }
    } else {
        NumberPart::Minus.lemma_after_first(rest);
        let digits = rest.skip(1);
        if rest[0] == ascii::DIGIT_0 {
            assert(digits =~= Seq::empty());
        } else {
            assert forall|i: int| 0 <= i < digits.len() implies ascii::is_digit(
                #[trigger] digits[i],
            ) by {
                assert(digits[i] == rest[i + 1]);
            }
            lemma_digits(NumberPart::Integer, digits);
        }
    }
}

/// One or more digits which start a part that consists of digits can be read completely.
proof fn lemma_read_digits(part: NumberPart, digits: Seq<u8>)
    requires
        is_digits(digits),
        part is Point || part is ExponentMark || part is ExponentSign,
    ensures
        part is Point ==> part.after(digits) == Some(NumberPart::Fraction),
        !(part is Point) ==> part.after(digits) == Some(NumberPart::Exponent),
{
    part.lemma_after_first(digits);
    let rest = digits.skip(1);
    assert forall|i: int| 0 <= i < rest.len() implies ascii::is_digit(#[trigger] rest[i]) by {
        assert(rest[i] == digits[i + 1]);
    }
    lemma_digits(part.next(digits[0])->0, rest);
}

impl NumberPart {
    /// Bytes can be read in two portions.
    proof fn lemma_after_concat(self, first: Seq<u8>, second: Seq<u8>)
        ensures
            self.after(first + second) == match self.after(first) {
                Some(part) => part.after(second),
                None => None,
            },
        decreases second.len(),
    {
        if second.len() == 0 {
            assert(first + second =~= first);
        } else {
            self.lemma_after_concat(first, second.drop_last());
            assert((first + second).drop_last() =~= first + second.drop_last());
        }
    }
}

/// The bytes which can be read as complete number are exactly the JSON numbers.
pub proof fn law_number_grammar(bytes: Seq<u8>)
    ensures
        is_json_number(bytes) <==> (NumberPart::Start.after(bytes) matches Some(part)
            && part.can_end()),
{
    if NumberPart::Start.after(bytes) matches Some(part) && part.can_end() {
        let part = NumberPart::Start.after(bytes)->0;
        lemma_has_part(bytes);
        let len = bytes.len() as int;
        assert(bytes.take(len) =~= bytes);
        assert(bytes.subrange(len, len) =~= Seq::empty());
        assert(bytes.skip(len) =~= Seq::empty());
        if part is Zero || part is Integer {
            assert(is_split_number(bytes, len, len));
        } else if part is Fraction {
            let i = choose|i: int|
                0 <= i < bytes.len() && is_integer(#[trigger] bytes.take(i)) && bytes[i]
                    == ascii::POINT && is_digits(bytes.skip(i + 1));
            assert(bytes.subrange(i, len) =~= bytes.skip(i));
            assert(bytes.skip(i).skip(1) =~= bytes.skip(i + 1));
            assert(is_split_number(bytes, i, len));
        } else {
            let (i, j) = choose|i: int, j: int|
                0 <= i <= j && j + 1 < bytes.len() && #[trigger] is_exponent_start(bytes, i, j)
                    && is_exponent(bytes.skip(j));
            assert(is_split_number(bytes, i, j));
        }
    }
    if is_json_number(bytes) {
        let (i, j) = choose|i: int, j: int|
            0 <= i <= j <= bytes.len() && #[trigger] is_split_number(bytes, i, j);
        let integer = bytes.take(i);
        let fraction = bytes.subrange(i, j);
        let exponent = bytes.skip(j);
        assert(bytes =~= integer + fraction + exponent);
        lemma_read_integer(integer);
        NumberPart::Start.lemma_after_concat(integer, fraction);
        let part = NumberPart::Start.after(integer)->0;
        if fraction.len() > 0 {
            part.lemma_after_first(fraction);
            lemma_read_digits(NumberPart::Point, fraction.skip(1));
        }
        NumberPart::Start.lemma_after_concat(integer + fraction, exponent);
        let part = NumberPart::Start.after(integer + fraction)->0;
        if exponent.len() > 0 {
            part.lemma_after_first(exponent);
            if is_digits(exponent.skip(1)) {
                lemma_read_digits(NumberPart::ExponentMark, exponent.skip(1));
            } else {
                NumberPart::ExponentMark.lemma_after_first(exponent.skip(1));
                assert(exponent.skip(1).skip(1) =~= exponent.skip(2));
                lemma_read_digits(NumberPart::ExponentSign, exponent.skip(2));
            }
        }
    }
}

impl NumberProgress {
    /// Some bytes were read which the grammar allows.
    pub open spec fn advanced_by(self, bytes: Seq<u8>) -> NumberProgress
        decreases bytes.len(),
    {
        if bytes.len() == 0 {
            self
        } else {
            self.advanced_by(bytes.drop_last()).advanced(
                bytes.last(),
                self.part.after(bytes)->0,
            )
        }
    }

    /// The bytes can be read one after the other.
    proof fn lemma_advanced_by_first(self, bytes: Seq<u8>)
        requires
            bytes.len() > 0,
            self.part.after(bytes) is Some,
        ensures
            self.advanced_by(bytes) == self.advanced(
                bytes[0],
                self.part.next(bytes[0])->0,
            ).advanced_by(bytes.skip(1)),
        decreases bytes.len(),
    {
        self.part.lemma_after_first(bytes);
        let first = self.advanced(bytes[0], self.part.next(bytes[0])->0);
        if bytes.len() == 1 {
            assert(bytes.drop_last() =~= Seq::empty());
            assert(bytes.skip(1) =~= Seq::empty());
            assert(self.advanced_by(bytes.drop_last()) == self);
            assert(first.advanced_by(bytes.skip(1)) == first);
        } else {
            self.lemma_advanced_by_first(bytes.drop_last());
            assert(bytes.drop_last().skip(1) =~= bytes.skip(1).drop_last());
        }
    }
}

impl ScanState {
    /// Reading a number consumes the bytes which the grammar allows, as many as possible.
    pub proof fn lemma_read_number_consumes(self, progress: NumberProgress)
        ensures
            ({
                let (next, advanced, end) = self.read_number(progress);
                let count = advanced.len - progress.len;
                let consumed = self.pending.bytes.take(count);
                &&& 0 <= count <= self.pending.bytes.len()
                &&& progress.part.after(consumed) == Some(advanced.part)
                &&& advanced == progress.advanced_by(consumed)
                &&& next == self.with_bytes(consumed).dropped(count)
                &&& match next.pending.ahead(0) {
                    Ahead::Missing => end == NumberEnd::NeedsInput,
                    Ahead::Ended => end == advanced.part.at_eof(),
                    Ahead::Byte(byte) => match advanced.part.step(byte) {
                        NumberStep::Consume(_) => false,
                        NumberStep::End => end == NumberEnd::Complete,
                        NumberStep::Malformed => end == NumberEnd::Malformed,
                    },
                }
            }),
        decreases self.pending.bytes.len(),
    {
        let none = self.pending.bytes.take(0);
        assert(none =~= Seq::empty());
        assert(self.pending.bytes.skip(0) =~= self.pending.bytes);
        if let Some(value) = self.value {
            assert(value + none =~= value);
        }
        if let Ahead::Byte(byte) = self.pending.ahead(0) {
            if let NumberStep::Consume(part) = progress.part.step(byte) {
                let rest = self.with_bytes(seq![byte]).dropped(1);
                let further = progress.advanced(byte, part);
                rest.lemma_read_number_consumes(further);
                let (next, advanced, end) = rest.read_number(further);
                let count = advanced.len - further.len;
                let consumed = self.pending.bytes.take(count + 1);
                assert(consumed.skip(1) =~= rest.pending.bytes.take(count));
                progress.part.lemma_after_first(consumed);
                progress.lemma_advanced_by_first(consumed);
                assert(self.pending.bytes.skip(1).skip(count) =~= self.pending.bytes.skip(
                    count + 1,
                ));
                if let Some(value) = self.value {
                    assert(value + seq![byte] + rest.pending.bytes.take(count) =~= value
                        + consumed);
                }
            }
        }
    }

    /// A JSON number which is followed by the end of the data or by something that cannot be part
    /// of a number is read completely.
    pub proof fn law_read_number_is_exact(self, number: Seq<u8>)
        requires
            number.len() <= self.pending.bytes.len(),
            self.pending.bytes.take(number.len() as int) == number,
            is_json_number(number),
            match self.pending.ahead(number.len() as int) {
                Ahead::Missing => false,
                Ahead::Ended => true,
                Ahead::Byte(byte) => !crate::number::is_number_byte(byte),
            },
        ensures
            self.read_number(NumberProgress::start()) == (
                self.with_bytes(number).dropped(number.len() as int),
                NumberProgress::start().advanced_by(number),
                NumberEnd::Complete,
            ),
    {
        law_number_grammar(number);
        let start = NumberProgress::start();
        self.lemma_read_number_consumes(start);
        let (next, advanced, end) = self.read_number(start);
        let count = advanced.len as int;
        let consumed = self.pending.bytes.take(count);
        if count < number.len() {
            // The grammar allows the next byte of the number
            let prefix = number.take(count + 1);
            assert(prefix.drop_last() =~= consumed);
            lemma_prefix_readable(number, count + 1);
            assert(next.pending.ahead(0) == Ahead::Byte(number[count]));
            assert(false);
        } else if count > number.len() {
            // No byte behind the number can be part of it
            let prefix = consumed.take(number.len() as int + 1);
            lemma_prefix_readable(consumed, number.len() as int + 1);
            assert(prefix.drop_last() =~= number);
            let byte = self.pending.bytes[number.len() as int];
            assert(prefix.last() == byte);
            lemma_next_is_number_byte(NumberPart::Start.after(number)->0, byte);
            assert(false);
        }
        assert(consumed =~= number);
    }
}

/// All bytes which the grammar allows somewhere are number bytes.
proof fn lemma_next_is_number_byte(part: NumberPart, byte: u8)
    ensures
        part.next(byte) is Some ==> crate::number::is_number_byte(byte),
{
}

/// Every prefix of bytes which the grammar allows is allowed as well.
proof fn lemma_prefix_readable(bytes: Seq<u8>, count: int)
    requires
        0 <= count <= bytes.len(),
        NumberPart::Start.after(bytes) is Some,
    ensures
        NumberPart::Start.after(bytes.take(count)) is Some,
    decreases bytes.len() - count,
{
    if count < bytes.len() {
        lemma_prefix_readable(bytes, count + 1);
        assert(bytes.take(count + 1).drop_last() =~= bytes.take(count));
    } else {
        assert(bytes.take(count) =~= bytes);
    }
}

/// The magnitude of the exponent of a number.
pub open spec fn exponent_magnitude(number: Seq<u8>) -> nat
    decreases number.len(),
{
    if number.len() > 0 && NumberPart::Start.after(number) == Some(NumberPart::Exponent) {
        exponent_magnitude(number.drop_last()) * 10 + (number.last() - ascii::DIGIT_0) as nat
    } else {
        0
    }
}

proof fn lemma_exponent_digits(number: Seq<u8>)
    requires
        NumberPart::Start.after(number) is Some,
    ensures
        ({
            let progress = NumberProgress::start().advanced_by(number);
            let magnitude = exponent_magnitude(number);
            &&& progress.part == NumberPart::Start.after(number)->0
            &&& progress.len == number.len()
            &&& progress.exponent_digits == 0 <==> magnitude == 0
            &&& progress.exponent_digits == 1 <==> 1 <= magnitude <= 9
            &&& progress.exponent_digits == 2 <==> 10 <= magnitude <= 99
            &&& !(progress.part is Exponent) ==> progress.exponent_digits == 0
        }),
    decreases number.len(),
{
    if number.len() > 0 {
        lemma_exponent_digits(number.drop_last());
    }
}

/// If number values are restricted, exactly those numbers are supported whose exponent is between
/// -99 and 99 and which have at most 100 characters.
pub proof fn law_number_restriction(number: Seq<u8>)
    requires
        is_json_number(number),
    ensures
        NumberProgress::start().advanced_by(number).is_supported() <==> exponent_magnitude(number)
            <= 99 && number.len() <= 100,
{
    law_number_grammar(number);
    lemma_exponent_digits(number);
}

impl ReaderModel {
    /// A JSON number which is followed by the end of the data or by something which separates
    /// values is returned if and only if it is supported or the restriction of numbers is disabled;
    /// then exactly the bytes of the number are consumed, and its text is returned.
    pub proof fn law_next_number_is_exact(self, number: Seq<u8>)
        requires
            self.valid(),
            self.ongoing is None,
            self.misuse(Operation::NextNumber) is None,
            self.peeked == Some(crate::token::PeekedValue::NumberStart),
            number.len() <= self.scan.pending.bytes.len(),
            self.scan.pending.bytes.take(number.len() as int) == number,
            is_json_number(number),
            match self.scan.pending.ahead(number.len() as int) {
                Ahead::Missing => false,
                Ahead::Ended => true,
                Ahead::Byte(byte) => ascii::is_separator(byte),
            },
        ensures
            ({
                let (next, outcome) = self.next_number();
                let text = vstd::utf8::decode_utf8(number);
                let supported = exponent_magnitude(number) <= 99 && number.len() <= 100;
                if supported || !self.settings.restrict_number_values {
                    &&& outcome == Outcome::Ready(text)
                    &&& next.scan.pending == self.scan.pending.after(number.len() as int)
                    &&& next.scan.spot == self.scan.spot.moved(number.len(), number.len())
                } else {
                    outcome == Outcome::<Seq<char>>::Failed(Problem::Number(text, self.place()))
                }
            }),
    {
        self.lemma_ready(Operation::NextNumber);
        let m = self.picked_up();
        let progress = NumberProgress::start();
        let reading = m.consume_peeked().reading(Doing::ReadingNumber(progress), true);
        assert(m.peek_internal() == (
            m,
            Outcome::Ready(crate::token::PeekedValue::NumberStart),
        ));
        assert(m.start_value(ValueType::Number, false) == (
            m.consume_peeked(),
            Outcome::Ready(crate::token::PeekedValue::NumberStart),
        ));
        assert(reading.scan.spot == self.scan.spot);
        reading.scan.law_read_number_is_exact(number);
        law_number_grammar(number);
        lemma_exponent_digits(number);
        assert(Seq::<u8>::empty() + number =~= number);
    }

    /// Conversely, what is returned as number is the text of a JSON number.
    pub proof fn law_next_number_is_json_number(self)
        requires
            self.valid(),
            self.ongoing is None,
            self.misuse(Operation::NextNumber) is None,
        ensures
            self.next_number().1 matches Outcome::Ready(text) ==> exists|number: Seq<u8>|
                #![trigger is_json_number(number)]
                is_json_number(number) && text == vstd::utf8::decode_utf8(number),
    {
        self.lemma_ready(Operation::NextNumber);
        let m = self.picked_up();
        m.lemma_start_value(ValueType::Number, false);
        let (next, outcome) = m.start_value(ValueType::Number, false);
        if outcome is Ready {
            let progress = NumberProgress::start();
            let reading = next.reading(Doing::ReadingNumber(progress), true);
            reading.scan.lemma_read_number_consumes(progress);
            reading.scan.lemma_read_number(progress);
            let (scan, advanced, end) = reading.scan.read_number(progress);
            let number = reading.scan.pending.bytes.take(advanced.len as int);
            assert(Seq::<u8>::empty() + number =~= number);
            if end == NumberEnd::Complete {
                law_number_grammar(number);
                assert(is_json_number(number));
            }
        }
    }
}

} // verus!
