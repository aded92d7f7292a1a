//! Laws: whitespace and comments.

use vstd::prelude::*;
use vstd::utf8::*;

use crate::ascii;
use crate::error::{Rejection, SyntaxErrorKind};
use crate::lookahead::{Ahead, NextChar, Pending};
use crate::position::Spot;
use crate::scan::{Gap, GapEnd, ScanState};
use crate::settings::ReaderSettings;

verus! {

/// Whether the text consists of whitespace.
pub open spec fn is_whitespace(text: Seq<u8>) -> bool {
    forall|i: int| 0 <= i < text.len() ==> ascii::is_blank(#[trigger] text[i])
}

/// Whether the text is a block comment: it ends at the first `*/`, and may contain anything else
/// which is valid UTF-8.
pub open spec fn is_block_comment(text: Seq<u8>) -> bool {
    let end = text.len() - 2;
    &&& text.len() >= 4
    &&& text[0] == ascii::SLASH
    &&& text[1] == ascii::STAR
    &&& text[end] == ascii::STAR
    &&& text[end + 1] == ascii::SLASH
    &&& forall|i: int|
        2 <= i < end ==> !(#[trigger] text[i] == ascii::STAR && text[i + 1] == ascii::SLASH)
    &&& valid_utf8(text.subrange(2, end))
}

/// Whether the text is an end of line comment, without the line break: it may contain anything else
/// which is valid UTF-8.
pub open spec fn is_line_comment(text: Seq<u8>) -> bool {
    &&& text.len() >= 2
    &&& text[0] == ascii::SLASH
    &&& text[1] == ascii::SLASH
    &&& forall|i: int|
        2 <= i < text.len() ==> #[trigger] text[i] != ascii::LINE_FEED && text[i]
            != ascii::CARRIAGE_RETURN
    &&& valid_utf8(text.skip(2))
}

/// Whether the text starts with a line break.
pub open spec fn is_at_line_break(text: Seq<u8>) -> bool {
    text.len() > 0 && (text[0] == ascii::LINE_FEED || text[0] == ascii::CARRIAGE_RETURN)
}

/// Whether the text consists of whitespace and comments.
pub open spec fn is_gap_text(text: Seq<u8>) -> bool
    decreases text.len(),
{
    ||| text.len() == 0
    ||| ascii::is_blank(text[0]) && is_gap_text(text.skip(1))
    ||| exists|len: int|
        0 < len <= text.len() && is_block_comment(#[trigger] text.take(len)) && is_gap_text(
            text.skip(len),
        )
    ||| exists|len: int|
        0 < len <= text.len() && is_line_comment(#[trigger] text.take(len)) && is_at_line_break(
            text.skip(len),
        ) && is_gap_text(text.skip(len))
}

/// A char of more than one byte is recognized.
proof fn lemma_multibyte(pending: Pending, text: Seq<u8>)
    requires
        text.len() <= pending.bytes.len(),
        pending.bytes.take(text.len() as int) == text,
        valid_utf8(text),
        text.len() > 0,
        text[0] >= 0x80,
    ensures
        2 <= length_of_first_scalar(text) <= text.len(),
        pending.multibyte_char() == (NextChar::Plain {
            len: length_of_first_scalar(text) as usize,
        }),
{
    let first = take_first_scalar(text);
    let char = decode_first_scalar(text) as char;
    decode_utf8_first_scalar(text);
    assert(first == encode_scalar(char as u32));
    assert(first.len() == length_of_first_scalar(text));
    assert(first[0] == text[0]);
    assert(pending.bytes.take(first.len() as int) =~= first);
    assert(pending.bytes[0] == text[0]);
    super::documents::lemma_plain_char(pending, first, char);
}

/// The char at the start of a text has one byte if it is ASCII.
proof fn lemma_single_byte(text: Seq<u8>)
    requires
        valid_utf8(text),
        text.len() > 0,
        text[0] < 0x80,
    ensures
        valid_utf8(text.skip(1)),
{
    assert(pop_first_scalar(text) =~= text.skip(1));
}

impl ScanState {
    /// The rest of a block comment is skipped.
    proof fn lemma_inside_block_comment(self, content: Seq<u8>) -> (behind: ScanState)
        requires
            self.gap is BlockComment,
            content.len() + 2 <= self.pending.bytes.len(),
            self.pending.bytes.take(content.len() as int) == content,
            self.pending.bytes[content.len() as int] == ascii::STAR,
            self.pending.bytes[content.len() as int + 1] == ascii::SLASH,
            forall|i: int|
                0 <= i < content.len() ==> !(#[trigger] self.pending.bytes[i] == ascii::STAR
                    && self.pending.bytes[i + 1] == ascii::SLASH),
            valid_utf8(content),
        ensures
            self.skip_gap(true) == behind.skip_gap(true),
            behind.is_behind(
                self.with_gap(Gap::Blank { after_cr: false }),
                content.len() as int + 2,
            ),
        decreases content.len(),
    {
        self.lemma_gap_step(true);
        let bytes = self.pending.bytes;
        let (next, end) = self.gap_step(true);
        if content.len() == 0 {
            assert(self.pending.ahead(1) == Ahead::Byte(ascii::SLASH));
            next
        } else {
            assert(bytes[0] == content[0]);
            let count: int = if content[0] < 0x80 {
                lemma_single_byte(content);
                1
            } else {
                lemma_multibyte(self.pending, content);
                assert(pop_first_scalar(content) =~= content.skip(length_of_first_scalar(content)));
                length_of_first_scalar(content)
            };
            if content[0] == ascii::STAR {
                assert(self.pending.ahead(1) == Ahead::Byte(bytes[1]));
            }
            assert(end is None);
            assert(next.pending.bytes =~= bytes.skip(count));
            let rest = content.skip(count);
            assert(next.pending.bytes.take(rest.len() as int) =~= rest);
            assert forall|i: int| 0 <= i < rest.len() implies !(#[trigger] next.pending.bytes[i]
                == ascii::STAR && next.pending.bytes[i + 1] == ascii::SLASH) by {
                assert(next.pending.bytes[i] == bytes[i + count]);
            }
            let behind = next.lemma_inside_block_comment(rest);
            assert(bytes.skip(count).skip(rest.len() as int + 2) =~= bytes.skip(
                content.len() as int + 2,
            ));
            behind
        }
    }

    /// A block comment is skipped as a whole, up to the first `*/`.
    ///
    /// Returns the state behind it.
    pub proof fn law_block_comment_is_skipped(self, comment: Seq<u8>) -> (behind: ScanState)
        requires
            self.gap is Outside || self.gap is Blank,
            is_block_comment(comment),
            comment.len() <= self.pending.bytes.len(),
            self.pending.bytes.take(comment.len() as int) == comment,
        ensures
            self.skip_gap(true) == behind.skip_gap(true),
            behind.is_behind(self.with_gap(Gap::Blank { after_cr: false }), comment.len() as int),
    {
        self.lemma_gap_step(true);
        let bytes = self.pending.bytes;
        assert(forall|i: int| 0 <= i < comment.len() ==> bytes[i] == #[trigger] comment[i]);
        assert(self.pending.ahead(0) == Ahead::Byte(comment[0]));
        assert(self.pending.ahead(1) == Ahead::Byte(comment[1]));
        let (next, _) = self.gap_step(true);
        let end = comment.len() - 2;
        let content = comment.subrange(2, end);
        assert(next.pending.bytes =~= bytes.skip(2));
        assert(next.pending.bytes.take(content.len() as int) =~= content);
        assert(next.pending.bytes[content.len() as int] == comment[end]);
        assert(next.pending.bytes[content.len() as int + 1] == comment[end + 1]);
        assert forall|i: int| 0 <= i < content.len() implies !(#[trigger] next.pending.bytes[i]
            == ascii::STAR && next.pending.bytes[i + 1] == ascii::SLASH) by {
            assert(next.pending.bytes[i] == comment[i + 2]);
            assert(next.pending.bytes[i + 1] == comment[i + 2 + 1]);
        }
        let behind = next.lemma_inside_block_comment(content);
        assert(bytes.skip(2).skip(content.len() as int + 2) =~= bytes.skip(comment.len() as int));
        behind
    }

    /// The rest of an end of line comment is skipped.
    proof fn lemma_inside_line_comment(self, content: Seq<u8>) -> (behind: ScanState)
        requires
            self.gap is LineComment,
            content.len() <= self.pending.bytes.len(),
            self.pending.bytes.take(content.len() as int) == content,
            forall|i: int|
                0 <= i < content.len() ==> #[trigger] content[i] != ascii::LINE_FEED && content[i]
                    != ascii::CARRIAGE_RETURN,
            valid_utf8(content),
        ensures
            self.skip_gap(true) == behind.skip_gap(true),
            behind.is_behind(self, content.len() as int),
        decreases content.len(),
    {
        let bytes = self.pending.bytes;
        if content.len() == 0 {
            assert(bytes.skip(0) =~= bytes);
            self
        } else {
            self.lemma_gap_step(true);
            let (next, end) = self.gap_step(true);
            assert(bytes[0] == content[0]);
            let count: int = if content[0] < 0x80 {
                lemma_single_byte(content);
                1
            } else {
                lemma_multibyte(self.pending, content);
                assert(pop_first_scalar(content) =~= content.skip(length_of_first_scalar(content)));
                length_of_first_scalar(content)
            };
            assert(end is None);
            assert(next.pending.bytes =~= bytes.skip(count));
            let rest = content.skip(count);
            assert(next.pending.bytes.take(rest.len() as int) =~= rest);
            assert forall|i: int| 0 <= i < rest.len() implies #[trigger] rest[i]
                != ascii::LINE_FEED && rest[i] != ascii::CARRIAGE_RETURN by {
                assert(rest[i] == content[i + count]);
            }
            let behind = next.lemma_inside_line_comment(rest);
            assert(bytes.skip(count).skip(rest.len() as int) =~= bytes.skip(content.len() as int));
            behind
        }
    }

    /// An end of line comment is skipped up to the line break or up to the end of the data.
    ///
    /// Returns the state behind it.
    pub proof fn law_line_comment_is_skipped(self, comment: Seq<u8>) -> (behind: ScanState)
        requires
            self.gap is Outside || self.gap is Blank,
            is_line_comment(comment),
            comment.len() <= self.pending.bytes.len(),
            self.pending.bytes.take(comment.len() as int) == comment,
            is_at_line_break(self.pending.bytes.skip(comment.len() as int)) || self.pending.eof
                && self.pending.bytes.len() == comment.len(),
        ensures
            self.skip_gap(true) == behind.skip_gap(true),
            behind.is_behind(self.with_gap(Gap::Outside), comment.len() as int),
    {
        self.lemma_gap_step(true);
        let bytes = self.pending.bytes;
        assert(forall|i: int| 0 <= i < comment.len() ==> bytes[i] == #[trigger] comment[i]);
        assert(self.pending.ahead(0) == Ahead::Byte(comment[0]));
        assert(self.pending.ahead(1) == Ahead::Byte(comment[1]));
        let (next, _) = self.gap_step(true);
        let content = comment.skip(2);
        assert(next.pending.bytes =~= bytes.skip(2));
        assert(next.pending.bytes.take(content.len() as int) =~= content);
        let last = next.lemma_inside_line_comment(content);
        assert(bytes.skip(2).skip(content.len() as int) =~= bytes.skip(comment.len() as int));
        let behind = last.with_gap(Gap::Outside);
        assert(last.gap_step(true) == behind.gap_step(true));
        behind
    }

    /// Whitespace and comments in front of a token are skipped if comments are enabled.
    pub proof fn law_gap_is_skipped(self, text: Seq<u8>, byte: u8)
        requires
            self.gap is Outside || self.gap is Blank,
            is_gap_text(text),
            text.len() < self.pending.bytes.len(),
            self.pending.bytes.take(text.len() as int) == text,
            self.pending.bytes[text.len() as int] == byte,
            !ascii::is_blank(byte),
            byte != ascii::SLASH,
        ensures
            ({
                let (next, end) = self.skip_gap(true);
                &&& end == GapEnd::Byte(byte)
                &&& next.is_behind(self.with_gap(Gap::Outside), text.len() as int)
            }),
        decreases text.len(),
    {
        self.lemma_gap_step(true);
        let bytes = self.pending.bytes;
        if text.len() == 0 {
            assert(bytes.skip(0) =~= bytes);
        } else {
            let (behind, len) = self.lemma_gap_part(text);
            let rest = text.skip(len);
            assert(behind.pending.bytes =~= bytes.skip(len));
            assert(behind.pending.bytes.take(rest.len() as int) =~= rest);
            behind.law_gap_is_skipped(rest, byte);
            assert(bytes.skip(len).skip(rest.len() as int) =~= bytes.skip(text.len() as int));
        }
    }

    /// A comment is rejected if comments are not enabled.
    pub proof fn law_comment_is_rejected(self)
        requires
            self.gap is Outside || self.gap is Blank,
            self.pending.bytes.len() > 0,
            self.pending.bytes[0] == ascii::SLASH,
        ensures
            self.skip_gap(false) == (
                self.with_gap(Gap::Outside),
                GapEnd::Rejected(Rejection::Syntax(SyntaxErrorKind::CommentsNotEnabled)),
            ),
    {
    }
}

/// Whether the text may stand between two tokens: whitespace, and comments if they are enabled.
pub open spec fn is_gap(text: Seq<u8>, settings: ReaderSettings) -> bool {
    if settings.allow_comments {
        is_gap_text(text)
    } else {
        is_whitespace(text)
    }
}

/// Whether the text may stand at the end of the data: there an end of line comment is not
/// necessarily followed by a line break.
pub open spec fn is_trailing_gap(text: Seq<u8>, settings: ReaderSettings) -> bool {
    ||| is_gap(text, settings)
    ||| settings.allow_comments && exists|len: int|
        0 <= len <= text.len() && is_gap_text(#[trigger] text.take(len)) && is_line_comment(
            text.skip(len),
        )
}

/// A gap starts with whitespace or with a comment.
pub proof fn lemma_gap_start(text: Seq<u8>, settings: ReaderSettings)
    requires
        is_trailing_gap(text, settings),
        text.len() > 0,
    ensures
        ascii::is_separator(text[0]),
{
    if is_gap(text, settings) {
        lemma_gap_first(text, settings);
    } else {
        let len = choose|len: int|
            0 <= len <= text.len() && is_gap_text(#[trigger] text.take(len)) && is_line_comment(
                text.skip(len),
            );
        if len > 0 {
            assert(text.take(len)[0] == text[0]);
            lemma_gap_first(text.take(len), settings);
        } else {
            assert(text.skip(0)[0] == text[0]);
        }
    }
}

proof fn lemma_gap_first(text: Seq<u8>, settings: ReaderSettings)
    requires
        is_gap(text, settings),
        text.len() > 0,
    ensures
        ascii::is_separator(text[0]),
{
    if settings.allow_comments && !ascii::is_blank(text[0]) {
        if exists|len: int|
            0 < len <= text.len() && is_block_comment(#[trigger] text.take(len)) && is_gap_text(
                text.skip(len),
            ) {
            let len = choose|len: int|
                0 < len <= text.len() && is_block_comment(#[trigger] text.take(len))
                    && is_gap_text(text.skip(len));
            assert(text.take(len)[0] == text[0]);
        } else {
            let len = choose|len: int|
                0 < len <= text.len() && is_line_comment(#[trigger] text.take(len))
                    && is_at_line_break(text.skip(len)) && is_gap_text(text.skip(len));
            assert(text.take(len)[0] == text[0]);
        }
    }
}

/// Whitespace in front of a token is skipped.
proof fn lemma_whitespace(scan: ScanState, count: int, byte: u8, allow_comments: bool)
    requires
        scan.gap is Outside || scan.gap is Blank,
        0 <= count < scan.pending.bytes.len(),
        is_whitespace(scan.pending.bytes.take(count)),
        scan.pending.bytes[count] == byte,
        !ascii::is_blank(byte),
        byte != ascii::SLASH,
    ensures
        ({
            let (next, end) = scan.skip_gap(allow_comments);
            &&& end == GapEnd::Byte(byte)
            &&& next.is_behind(scan.with_gap(Gap::Outside), count)
        }),
    decreases count,
{
    scan.lemma_gap_step(allow_comments);
    if count == 0 {
        assert(scan.pending.bytes.skip(0) =~= scan.pending.bytes);
    } else {
        assert(scan.pending.bytes.take(count)[0] == scan.pending.bytes[0]);
        let (next, end) = scan.gap_step(allow_comments);
        assert(next.pending.bytes.take(count - 1) =~= scan.pending.bytes.take(count).skip(1));
        lemma_whitespace(next, count - 1, byte, allow_comments);
        assert(scan.pending.bytes.skip(1).skip(count - 1) =~= scan.pending.bytes.skip(count));
    }
}

/// Whitespace up to the end of the data is skipped.
proof fn lemma_trailing_whitespace(scan: ScanState, allow_comments: bool)
    requires
        scan.gap is Outside || scan.gap is Blank,
        is_whitespace(scan.pending.bytes),
        scan.pending.eof,
    ensures
        ({
            let (next, end) = scan.skip_gap(allow_comments);
            &&& end == GapEnd::Eof
            &&& next.pending.bytes.len() == 0
        }),
    decreases scan.pending.bytes.len(),
{
    scan.lemma_gap_step(allow_comments);
    if scan.pending.bytes.len() > 0 {
        let (next, end) = scan.gap_step(allow_comments);
        lemma_trailing_whitespace(next, allow_comments);
    }
}

/// What may stand between two tokens is skipped.
pub proof fn lemma_gap(scan: ScanState, count: int, byte: u8, settings: ReaderSettings)
    requires
        scan.gap is Outside || scan.gap is Blank,
        0 <= count < scan.pending.bytes.len(),
        is_gap(scan.pending.bytes.take(count), settings),
        scan.pending.bytes[count] == byte,
        !ascii::is_blank(byte),
        byte != ascii::SLASH,
    ensures
        ({
            let (next, end) = scan.skip_gap(settings.allow_comments);
            &&& end == GapEnd::Byte(byte)
            &&& next.is_behind(scan.with_gap(Gap::Outside), count)
        }),
{
    if settings.allow_comments {
        scan.law_gap_is_skipped(scan.pending.bytes.take(count), byte);
    } else {
        lemma_whitespace(scan, count, byte, false);
    }
}

impl ScanState {
    /// Whitespace and comments up to the end of the data are skipped if comments are enabled.
    pub proof fn law_trailing_gap_is_skipped(self, text: Seq<u8>, rest: Seq<u8>)
        requires
            self.gap is Outside || self.gap is Blank,
            self.pending.eof,
            is_gap_text(text),
            rest.len() == 0 || is_line_comment(rest),
            self.pending.bytes == text + rest,
        ensures
            self.skip_gap(true).1 == GapEnd::Eof,
            self.skip_gap(true).0.pending.bytes.len() == 0,
        decreases text.len(),
    {
        self.lemma_gap_step(true);
        let bytes = self.pending.bytes;
        if text.len() == 0 {
            if rest.len() > 0 {
                assert(bytes =~= rest);
                assert(bytes.take(rest.len() as int) =~= rest);
                let behind = self.law_line_comment_is_skipped(rest);
                behind.lemma_gap_step(true);
            }
        } else {
            assert(bytes.take(text.len() as int) =~= text);
            let (behind, len) = self.lemma_gap_part(text);
            assert(behind.pending.bytes =~= text.skip(len) + rest);
            behind.law_trailing_gap_is_skipped(text.skip(len), rest);
        }
    }

    /// The first whitespace character or comment of a gap is skipped.
    proof fn lemma_gap_part(self, text: Seq<u8>) -> (result: (ScanState, int))
        requires
            self.gap is Outside || self.gap is Blank,
            is_gap_text(text),
            0 < text.len() <= self.pending.bytes.len(),
            self.pending.bytes.take(text.len() as int) == text,
        ensures
            0 < result.1 <= text.len(),
            is_gap_text(text.skip(result.1)),
            self.skip_gap(true) == result.0.skip_gap(true),
            result.0.gap is Outside || result.0.gap is Blank,
            result.0.is_behind(self.with_gap(result.0.gap), result.1),
    {
        self.lemma_gap_step(true);
        let bytes = self.pending.bytes;
        assert(bytes.take(text.len() as int)[0] == bytes[0]);
        if ascii::is_blank(text[0]) && is_gap_text(text.skip(1)) {
            (self.gap_step(true).0, 1)
        } else if exists|len: int|
            0 < len <= text.len() && is_block_comment(#[trigger] text.take(len)) && is_gap_text(
                text.skip(len),
            ) {
            let len = choose|len: int|
                0 < len <= text.len() && is_block_comment(#[trigger] text.take(len))
                    && is_gap_text(text.skip(len));
            assert(bytes.take(len) =~= text.take(len));
            (self.law_block_comment_is_skipped(text.take(len)), len)
        } else {
            let len = choose|len: int|
                0 < len <= text.len() && is_line_comment(#[trigger] text.take(len))
                    && is_at_line_break(text.skip(len)) && is_gap_text(text.skip(len));
            assert(bytes.take(len) =~= text.take(len));
            assert(bytes.take(text.len() as int)[len] == bytes[len]);
            assert(text.skip(len)[0] == bytes.skip(len)[0]);
            (self.law_line_comment_is_skipped(text.take(len)), len)
        }
    }
}

/// What may stand at the end of the data is skipped.
pub proof fn lemma_trailing_gap(scan: ScanState, settings: ReaderSettings)
    requires
        scan.gap is Outside || scan.gap is Blank,
        is_trailing_gap(scan.pending.bytes, settings),
        scan.pending.eof,
    ensures
        ({
            let (next, end) = scan.skip_gap(settings.allow_comments);
            &&& end == GapEnd::Eof
            &&& next.pending.bytes.len() == 0
        }),
{
    let bytes = scan.pending.bytes;
    if !settings.allow_comments {
        lemma_trailing_whitespace(scan, false);
    } else if is_gap_text(bytes) {
        assert(bytes =~= bytes + Seq::empty());
        scan.law_trailing_gap_is_skipped(bytes, Seq::empty());
    } else {
        let len = choose|len: int|
            0 <= len <= bytes.len() && is_gap_text(#[trigger] bytes.take(len)) && is_line_comment(
                bytes.skip(len),
            );
        assert(bytes =~= bytes.take(len) + bytes.skip(len));
        scan.law_trailing_gap_is_skipped(bytes.take(len), bytes.skip(len));
    }
}

// ---- What is skipped may stand there ----

/// A char which is skipped within a comment is valid UTF-8.
proof fn lemma_skipped_char(pending: Pending)
    requires
        pending.bytes.len() > 0,
        pending.bytes[0] < 0x80 || pending.multibyte_char() is Plain,
    ensures
        ({
            let count: int = if pending.bytes[0] < 0x80 {
                1
            } else {
                pending.multibyte_char().source_len()
            };
            &&& 1 <= count <= pending.bytes.len()
            &&& valid_utf8(pending.bytes.take(count))
        }),
{
    let byte = pending.bytes[0];
    if byte < 0x80 {
        let bytes = pending.bytes.take(1);
        assert(bytes[0] == byte);
        assert(is_leading_byte_width_1(byte));
        assert(byte & 0x7F <= 0x7F) by (bit_vector);
        crate::utf8::lemma_single_scalar_valid(bytes);
    } else {
        pending.lemma_multibyte_char();
    }
}

impl ScanState {
    /// Whether scanning of a gap comes to its end.
    pub open spec fn passes_gap(self, allow_comments: bool) -> bool {
        let end = self.skip_gap(allow_comments).1;
        end is Byte || end is Eof
    }

    /// A block comment whose start was skipped is skipped up to its end.
    ///
    /// Returns the length of its content and the state behind it.
    proof fn lemma_skipped_block_comment(self) -> (result: (int, ScanState))
        requires
            self.gap is BlockComment,
            self.passes_gap(true),
        ensures
            ({
                let (len, behind) = result;
                let bytes = self.pending.bytes;
                &&& 0 <= len
                &&& len + 2 <= bytes.len()
                &&& valid_utf8(bytes.take(len))
                &&& bytes[len] == ascii::STAR
                &&& bytes[len + 1] == ascii::SLASH
                &&& forall|i: int|
                    0 <= i < len ==> !(#[trigger] bytes[i] == ascii::STAR && bytes[i + 1]
                        == ascii::SLASH)
                &&& behind.is_behind(self.with_gap(Gap::Blank { after_cr: false }), len + 2)
                &&& self.skip_gap(true) == behind.skip_gap(true)
            }),
        decreases self.pending.bytes.len(),
    {
        self.lemma_gap_step(true);
        let bytes = self.pending.bytes;
        let (next, end) = self.gap_step(true);
        assert(end is None);
        if bytes[0] == ascii::STAR && bytes[1] == ascii::SLASH {
            assert(bytes.take(0) =~= Seq::empty());
            (0, next)
        } else {
            lemma_skipped_char(self.pending);
            let count = bytes.len() - next.pending.bytes.len();
            let (len, behind) = next.lemma_skipped_block_comment();
            assert(next.pending.bytes =~= bytes.skip(count));
            valid_utf8_concat(bytes.take(count), next.pending.bytes.take(len));
            assert(bytes.take(count) + next.pending.bytes.take(len) =~= bytes.take(count + len));
            assert forall|i: int| 0 <= i < count + len implies !(#[trigger] bytes[i] == ascii::STAR
                && bytes[i + 1] == ascii::SLASH) by {
                if i >= count {
                    assert(next.pending.bytes[i - count] == bytes[i]);
                    assert(next.pending.bytes[i - count + 1] == bytes[i + 1]);
                } else if i > 0 {
                    self.lemma_no_star_inside(i);
                }
            }
            assert(bytes.skip(count).skip(len + 2) =~= bytes.skip(count + len + 2));
            (count + len, behind)
        }
    }

    /// The bytes of a char of more than one byte are not ASCII.
    proof fn lemma_no_star_inside(self, i: int)
        requires
            self.pending.bytes.len() > 0,
            self.pending.bytes[0] >= 0x80,
            self.pending.multibyte_char() is Plain,
            0 < i < self.pending.multibyte_char().source_len(),
        ensures
            self.pending.bytes[i] >= 0x80,
    {
        assert(is_continuation_byte(self.pending.bytes[i]));
    }

    /// An end of line comment whose start was skipped is skipped up to the end of the line.
    ///
    /// Returns the length of its content and the state behind it.
    proof fn lemma_skipped_line_comment(self) -> (result: (int, ScanState))
        requires
            self.gap is LineComment,
            self.passes_gap(true),
        ensures
            ({
                let (len, behind) = result;
                let bytes = self.pending.bytes;
                &&& 0 <= len <= bytes.len()
                &&& valid_utf8(bytes.take(len))
                &&& forall|i: int|
                    0 <= i < len ==> #[trigger] bytes[i] != ascii::LINE_FEED && bytes[i]
                        != ascii::CARRIAGE_RETURN
                &&& is_at_line_break(bytes.skip(len)) || len == bytes.len() && self.pending.eof
                &&& behind.is_behind(self.with_gap(Gap::Outside), len)
                &&& self.skip_gap(true) == behind.skip_gap(true)
            }),
        decreases self.pending.bytes.len(),
    {
        self.lemma_gap_step(true);
        let bytes = self.pending.bytes;
        let (next, end) = self.gap_step(true);
        if bytes.len() == 0 || is_at_line_break(bytes) {
            let behind = self.with_gap(Gap::Outside);
            assert(bytes.take(0) =~= Seq::empty());
            assert(bytes.skip(0) =~= bytes);
            assert(self.gap_step(true) == behind.gap_step(true));
            (0, behind)
        } else {
            assert(end is None);
            lemma_skipped_char(self.pending);
            let count = bytes.len() - next.pending.bytes.len();
            let (len, behind) = next.lemma_skipped_line_comment();
            assert(next.pending.bytes =~= bytes.skip(count));
            valid_utf8_concat(bytes.take(count), next.pending.bytes.take(len));
            assert(bytes.take(count) + next.pending.bytes.take(len) =~= bytes.take(count + len));
            assert forall|i: int| 0 <= i < count + len implies #[trigger] bytes[i]
                != ascii::LINE_FEED && bytes[i] != ascii::CARRIAGE_RETURN by {
                if i >= count {
                    assert(next.pending.bytes[i - count] == bytes[i]);
                } else if i > 0 {
                    self.lemma_no_star_inside(i);
                }
            }
            assert(bytes.skip(count).skip(len) =~= bytes.skip(count + len));
            (count + len, behind)
        }
    }

    /// The first whitespace character or comment of a gap which is skipped may stand there.
    ///
    /// Returns its length and the state behind it.
    proof fn lemma_skipped_part(self) -> (result: (int, ScanState))
        requires
            self.gap is Outside || self.gap is Blank,
            self.passes_gap(true),
            self.gap_step(true).1 is None,
        ensures
            ({
                let (len, behind) = result;
                let bytes = self.pending.bytes;
                let part = bytes.take(len);
                &&& 0 < len <= bytes.len()
                &&& len == 1 && ascii::is_blank(bytes[0]) || is_block_comment(part)
                    || is_line_comment(part) && (is_at_line_break(bytes.skip(len)) || len
                    == bytes.len() && self.pending.eof)
                &&& behind.gap is Outside || behind.gap is Blank
                &&& behind.is_behind(self.with_gap(behind.gap), len)
                &&& self.skip_gap(true) == behind.skip_gap(true)
            }),
    {
        self.lemma_gap_step(true);
        let bytes = self.pending.bytes;
        let (next, _) = self.gap_step(true);
        if ascii::is_blank(bytes[0]) {
            (1, next)
        } else if next.gap is BlockComment {
            let (len, behind) = next.lemma_skipped_block_comment();
            assert(next.pending.bytes =~= bytes.skip(2));
            let part = bytes.take(len + 4);
            assert(part.subrange(2, len + 2) =~= bytes.skip(2).take(len));
            assert(bytes.skip(2)[len] == bytes[len + 2]);
            assert(bytes.skip(2)[len + 1] == bytes[len + 3]);
            assert forall|i: int| 2 <= i < len + 2 implies !(#[trigger] part[i] == ascii::STAR
                && part[i + 1] == ascii::SLASH) by {
                assert(bytes.skip(2)[i - 2] == part[i]);
                assert(bytes.skip(2)[i - 2 + 1] == part[i + 1]);
            }
            assert(bytes.skip(2).skip(len + 2) =~= bytes.skip(len + 4));
            (len + 4, behind)
        } else {
            let (len, behind) = next.lemma_skipped_line_comment();
            assert(next.pending.bytes =~= bytes.skip(2));
            let part = bytes.take(len + 2);
            assert(part.skip(2) =~= bytes.skip(2).take(len));
            assert forall|i: int| 2 <= i < part.len() implies #[trigger] part[i]
                != ascii::LINE_FEED && part[i] != ascii::CARRIAGE_RETURN by {
                assert(bytes.skip(2)[i - 2] == part[i]);
            }
            assert(bytes.skip(2).skip(len) =~= bytes.skip(len + 2));
            (len + 2, behind)
        }
    }

    /// What is skipped between tokens consists of whitespace and comments.
    proof fn lemma_skipped_gap_text(self)
        requires
            self.gap is Outside || self.gap is Blank,
            self.passes_gap(true),
        ensures
            ({
                let (next, end) = self.skip_gap(true);
                let bytes = self.pending.bytes;
                let len = bytes.len() - next.pending.bytes.len();
                &&& 0 <= len <= bytes.len()
                &&& next.is_behind(self.with_gap(Gap::Outside), len)
                &&& end matches GapEnd::Byte(byte) ==> len < bytes.len() && bytes[len] == byte
                    && !ascii::is_blank(byte) && is_gap_text(bytes.take(len))
                &&& end is Eof ==> len == bytes.len() && self.pending.eof && (is_gap_text(bytes)
                    || exists|i: int|
                    0 <= i <= bytes.len() && is_gap_text(#[trigger] bytes.take(i))
                        && is_line_comment(bytes.skip(i)))
            }),
        decreases self.pending.bytes.len(),
    {
        self.lemma_gap_step(true);
        let bytes = self.pending.bytes;
        let (first, end) = self.gap_step(true);
        if end is Some {
            assert(bytes.skip(0) =~= bytes);
            assert(bytes.take(0) =~= Seq::empty());
            if end == Some(GapEnd::Eof) {
                assert(bytes =~= Seq::empty());
            }
        } else {
            let (len, behind) = self.lemma_skipped_part();
            behind.lemma_skipped_gap_text();
            let rest = bytes.skip(len);
            assert(behind.pending.bytes =~= rest);
            let (next, end) = self.skip_gap(true);
            let total = bytes.len() - next.pending.bytes.len();
            assert(rest.skip(total - len) =~= bytes.skip(total));
            if end is Byte {
                let text = bytes.take(total);
                assert(text.skip(len) =~= rest.take(total - len));
                assert(text.take(len) =~= bytes.take(len));
                if is_line_comment(bytes.take(len)) {
                    // The line break is part of the gap
                    assert(rest[0] == bytes[len]);
                    if total == len {
                        assert(false);
                    }
                    assert(text.skip(len)[0] == rest[0]);
                }
                lemma_gap_behind_part(text, len);
            } else {
                assert(bytes.skip(len) =~= rest);
                if is_gap_text(rest) {
                    if is_line_comment(bytes.take(len)) && len == bytes.len() {
                        assert(bytes.take(0) =~= Seq::empty());
                        assert(is_gap_text(bytes.take(0)));
                        assert(bytes.skip(0) =~= bytes.take(len));
                    } else {
                        lemma_gap_behind_part(bytes, len);
                    }
                } else {
                    let i = choose|i: int|
                        0 <= i <= rest.len() && is_gap_text(#[trigger] rest.take(i))
                            && is_line_comment(rest.skip(i));
                    let text = bytes.take(len + i);
                    assert(text.skip(len) =~= rest.take(i));
                    assert(text.take(len) =~= bytes.take(len));
                    assert(bytes.skip(len + i) =~= rest.skip(i));
                    if is_line_comment(bytes.take(len)) {
                        assert(rest[0] == bytes[len]);
                        if i == 0 {
                            assert(rest.skip(0)[0] == rest[0]);
                            assert(false);
                        }
                        assert(text.skip(len)[0] == rest[0]);
                    }
                    lemma_gap_behind_part(text, len);
                }
            }
        }
    }
}

/// Whitespace or a comment in front of a gap.
proof fn lemma_gap_behind_part(text: Seq<u8>, len: int)
    requires
        0 < len <= text.len(),
        is_gap_text(text.skip(len)),
        len == 1 && ascii::is_blank(text[0]) || is_block_comment(text.take(len))
            || is_line_comment(text.take(len)) && is_at_line_break(text.skip(len)),
    ensures
        is_gap_text(text),
{
}

/// Without comments only whitespace is skipped between tokens.
proof fn lemma_skipped_whitespace(scan: ScanState)
    requires
        scan.gap is Outside || scan.gap is Blank,
        scan.passes_gap(false),
    ensures
        ({
            let (next, end) = scan.skip_gap(false);
            let len = scan.pending.bytes.len() - next.pending.bytes.len();
            &&& 0 <= len <= scan.pending.bytes.len()
            &&& is_whitespace(scan.pending.bytes.take(len))
            &&& next.is_behind(scan.with_gap(Gap::Outside), len)
            &&& end matches GapEnd::Byte(byte) ==> len < scan.pending.bytes.len()
                && scan.pending.bytes[len] == byte
            &&& end is Eof ==> len == scan.pending.bytes.len() && scan.pending.eof
        }),
    decreases scan.pending.bytes.len(),
{
    scan.lemma_gap_step(false);
    let (next, end) = scan.gap_step(false);
    let bytes = scan.pending.bytes;
    if end is Some {
        assert(bytes.skip(0) =~= bytes);
    } else {
        lemma_skipped_whitespace(next);
        next.lemma_skip_gap(false);
        let behind = scan.skip_gap(false).0;
        let len = bytes.len() - behind.pending.bytes.len();
        assert forall|i: int| 0 <= i < len implies ascii::is_blank(#[trigger] bytes.take(len)[i]) by {
            if i > 0 {
                assert(next.pending.bytes.take(len - 1)[i - 1] == bytes[i]);
            }
        }
        assert(bytes.skip(1).skip(len - 1) =~= bytes.skip(len));
    }
}

/// What is skipped between tokens may stand there.
pub proof fn lemma_skipped_gap(scan: ScanState, settings: ReaderSettings)
    requires
        scan.gap is Outside || scan.gap is Blank,
        scan.passes_gap(settings.allow_comments),
    ensures
        ({
            let (next, end) = scan.skip_gap(settings.allow_comments);
            let bytes = scan.pending.bytes;
            let len = bytes.len() - next.pending.bytes.len();
            &&& 0 <= len <= bytes.len()
            &&& next.is_behind(scan.with_gap(Gap::Outside), len)
            &&& end matches GapEnd::Byte(byte) ==> len < bytes.len() && bytes[len] == byte
                && is_gap(bytes.take(len), settings)
            &&& end is Eof ==> len == bytes.len() && scan.pending.eof && is_trailing_gap(
                bytes,
                settings,
            )
        }),
{
    if settings.allow_comments {
        scan.lemma_skipped_gap_text();
    } else {
        lemma_skipped_whitespace(scan);
        let bytes = scan.pending.bytes;
        assert(bytes.take(bytes.len() as int) =~= bytes);
    }
}

/// The number of line breaks in the text: `\r\n` counts as one.
pub open spec fn line_breaks(text: Seq<u8>, after_cr: bool) -> nat
    decreases text.len(),
{
    if text.len() == 0 {
        0
    } else {
        let is_break = text[0] == ascii::CARRIAGE_RETURN || text[0] == ascii::LINE_FEED
            && !after_cr;
        let count: nat = if is_break {
            1
        } else {
            0
        };
        count + line_breaks(text.skip(1), text[0] == ascii::CARRIAGE_RETURN)
    }
}

/// Whether the byte is a line break or a part of one.
pub open spec fn is_line_break(byte: u8) -> bool {
    byte == ascii::CARRIAGE_RETURN || byte == ascii::LINE_FEED
}

/// Whether a char starts with the byte.
pub open spec fn is_char_start(byte: u8) -> bool {
    !is_continuation_byte(byte)
}

/// The number of chars behind the last line break of the text; all of them if there is none.
pub open spec fn last_line_chars(text: Seq<u8>) -> nat
    decreases text.len(),
{
    if text.len() == 0 || is_line_break(text.last()) {
        0
    } else if is_char_start(text.last()) {
        last_line_chars(text.drop_last()) + 1
    } else {
        last_line_chars(text.drop_last())
    }
}

spec fn has_line_break(text: Seq<u8>) -> bool {
    exists|i: int| 0 <= i < text.len() && is_line_break(#[trigger] text[i])
}

/// How many chars of a text which is extended in front are behind its last line break.
proof fn lemma_last_line_first(text: Seq<u8>)
    requires
        text.len() > 0,
    ensures
        last_line_chars(text) == last_line_chars(text.skip(1)) + if !has_line_break(text)
            && is_char_start(text[0]) {
            1nat
        } else {
            0
        },
        has_line_break(text) == (is_line_break(text[0]) || has_line_break(text.skip(1))),
    decreases text.len(),
{
    let rest = text.skip(1);
    assert(has_line_break(text) == (is_line_break(text[0]) || has_line_break(rest))) by {
        if has_line_break(rest) {
            let i = choose|i: int| 0 <= i < rest.len() && is_line_break(#[trigger] rest[i]);
            assert(text[i + 1] == rest[i]);
        } else if has_line_break(text) && !is_line_break(text[0]) {
            let i = choose|i: int| 0 <= i < text.len() && is_line_break(#[trigger] text[i]);
            assert(rest[i - 1] == text[i]);
        }
    }
    reveal_with_fuel(last_line_chars, 2);
    let start = text.drop_last();
    if rest.len() == 0 {
        assert(start =~= Seq::empty());
    } else if !is_line_break(text.last()) {
        lemma_last_line_first(start);
        assert(start.skip(1) =~= rest.drop_last());
        assert(has_line_break(text) == has_line_break(start)) by {
            if has_line_break(text) {
                let i = choose|i: int| 0 <= i < text.len() && is_line_break(#[trigger] text[i]);
                assert(start[i] == text[i]);
            } else if has_line_break(start) {
                let i = choose|i: int| 0 <= i < start.len() && is_line_break(#[trigger] start[i]);
                assert(text[i] == start[i]);
            }
        }
    }
}

/// A text has a line break if one is counted, or if it starts with the second part of one.
proof fn lemma_lines(text: Seq<u8>, after_cr: bool)
    ensures
        has_line_break(text) == (line_breaks(text, after_cr) > 0 || after_cr && text.len() > 0
            && text[0] == ascii::LINE_FEED),
    decreases text.len(),
{
    if text.len() > 0 {
        lemma_last_line_first(text);
        lemma_lines(text.skip(1), text[0] == ascii::CARRIAGE_RETURN);
    }
}

impl Spot {
    /// The place behind a text, byte by byte; `after_cr` tells whether there is a carriage return
    /// in front of the text.
    spec fn behind(self, text: Seq<u8>, after_cr: bool) -> Spot
        decreases text.len(),
    {
        if text.len() == 0 {
            self
        } else {
            let next = if is_char_start(text[0]) {
                self.past(text[0], after_cr)
            } else {
                self.moved(0, 1)
            };
            next.behind(text.skip(1), text[0] == ascii::CARRIAGE_RETURN)
        }
    }

    /// The place behind a text is determined by its line breaks and chars.
    proof fn lemma_behind(self, text: Seq<u8>, after_cr: bool)
        ensures
            ({
                let lines = line_breaks(text, after_cr);
                let spot = self.behind(text, after_cr);
                &&& spot.line == self.line + lines
                &&& spot.byte_pos == self.byte_pos + text.len()
                &&& spot.column == last_line_chars(text) + if lines == 0 {
                    self.column
                } else {
                    0
                }
            }),
        decreases text.len(),
    {
        if text.len() > 0 {
            let next = if is_char_start(text[0]) {
                self.past(text[0], after_cr)
            } else {
                self.moved(0, 1)
            };
            let rest = text.skip(1);
            next.lemma_behind(rest, text[0] == ascii::CARRIAGE_RETURN);
            lemma_last_line_first(text);
            lemma_lines(rest, text[0] == ascii::CARRIAGE_RETURN);
        }
    }

    /// The place behind two texts.
    proof fn lemma_behind_both(self, first: Seq<u8>, second: Seq<u8>, after_cr: bool)
        requires
            first.len() > 0,
        ensures
            self.behind(first + second, after_cr) == self.behind(first, after_cr).behind(
                second,
                first.last() == ascii::CARRIAGE_RETURN,
            ),
        decreases first.len(),
    {
        reveal_with_fuel(Spot::behind, 2);
        let whole = first + second;
        assert(whole.skip(1) =~= first.skip(1) + second);
        if first.len() > 1 {
            let next = if is_char_start(first[0]) {
                self.past(first[0], after_cr)
            } else {
                self.moved(0, 1)
            };
            next.lemma_behind_both(first.skip(1), second, first[0] == ascii::CARRIAGE_RETURN);
        } else {
            assert(first.skip(1) =~= Seq::empty());
            assert(whole.skip(1) =~= second);
        }
    }
}

impl ScanState {
    /// Whether the byte in front of the unconsumed ones is a carriage return of the gap.
    pub open spec fn is_after_cr(self) -> bool {
        match self.gap {
            Gap::Blank { after_cr } => after_cr,
            Gap::BlockComment { after_cr } => after_cr,
            _ => false,
        }
    }

    /// A step of scanning a gap moves the place behind what it consumes.
    proof fn lemma_step_is_counted(self, allow_comments: bool)
        requires
            self.gap_step(allow_comments).1 is None,
        ensures
            ({
                let next = self.gap_step(allow_comments).0;
                let bytes = self.pending.bytes;
                let len = bytes.len() - next.pending.bytes.len();
                &&& 0 < len <= bytes.len()
                &&& next.pending.bytes == bytes.skip(len)
                &&& next.spot == self.spot.behind(bytes.take(len), self.is_after_cr())
                &&& next.is_after_cr() == (bytes[len - 1] == ascii::CARRIAGE_RETURN)
            }),
    {
        reveal_with_fuel(Spot::behind, 5);
        self.lemma_gap_step(allow_comments);
        let bytes = self.pending.bytes;
        let next = self.gap_step(allow_comments).0;
        let len = bytes.len() - next.pending.bytes.len();
        let text = bytes.take(len);
        if bytes[0] >= 0x80 {
            self.pending.lemma_multibyte_char();
        }
        if len >= 2 {
            assert(text.skip(1).skip(1) =~= text.skip(2));
        }
        if len >= 3 {
            assert(text.skip(2).skip(1) =~= text.skip(3));
        }
        if len >= 4 {
            assert(text.skip(3).skip(1) =~= text.skip(4));
        }
    }

    /// Everything in a gap is counted, whitespace and comments: the line is moved by the number of
    /// line breaks, of which `\r\n` is one, and the column is the number of chars behind the last
    /// of them.
    pub proof fn law_line_breaks_are_counted(self, allow_comments: bool)
        requires
            !(self.skip_gap(allow_comments).1 is Rejected),
        ensures
            ({
                let next = self.skip_gap(allow_comments).0;
                let count = self.pending.bytes.len() - next.pending.bytes.len();
                let text = self.pending.bytes.take(count);
                let lines = line_breaks(text, self.is_after_cr());
                &&& 0 <= count <= self.pending.bytes.len()
                &&& next.pending.bytes == self.pending.bytes.skip(count)
                &&& next.spot.line == self.spot.line + lines
                &&& next.spot.byte_pos == self.spot.byte_pos + count
                &&& next.spot.column == last_line_chars(text) + if lines == 0 {
                    self.spot.column
                } else {
                    0
                }
            }),
    {
        self.lemma_gap_is_counted(allow_comments);
        let next = self.skip_gap(allow_comments).0;
        let count = self.pending.bytes.len() - next.pending.bytes.len();
        self.spot.lemma_behind(self.pending.bytes.take(count), self.is_after_cr());
    }

    /// What is counted when it is consumed.
    spec fn has_counted(self, next: ScanState) -> bool {
        let bytes = self.pending.bytes;
        let count = bytes.len() - next.pending.bytes.len();
        &&& 0 <= count <= bytes.len()
        &&& next.pending.bytes == bytes.skip(count)
        &&& next.spot == self.spot.behind(bytes.take(count), self.is_after_cr())
    }

    /// A step which ends the scan consumes nothing.
    proof fn lemma_last_step(self, allow_comments: bool)
        requires
            self.gap_step(allow_comments).1 matches Some(end) && !(end is Rejected),
        ensures
            self.has_counted(self.gap_step(allow_comments).0),
    {
        assert(self.pending.bytes.skip(0) =~= self.pending.bytes);
    }

    /// What is consumed one after the other.
    proof fn lemma_both_counted(self, first: ScanState, next: ScanState)
        requires
            self.has_counted(first),
            first.pending.bytes.len() < self.pending.bytes.len(),
            first.is_after_cr() == (self.pending.bytes[self.pending.bytes.len()
                - first.pending.bytes.len() - 1] == ascii::CARRIAGE_RETURN),
            first.has_counted(next),
        ensures
            self.has_counted(next),
    {
        let bytes = self.pending.bytes;
        let len = bytes.len() - first.pending.bytes.len();
        let count = bytes.len() - next.pending.bytes.len();
        let text = bytes.take(len);
        let rest = bytes.skip(len).take(count - len);
        assert(bytes.take(count) =~= text + rest);
        assert(bytes.skip(len).skip(count - len) =~= bytes.skip(count));
        self.spot.lemma_behind_both(text, rest, self.is_after_cr());
    }

    proof fn lemma_gap_is_counted(self, allow_comments: bool)
        requires
            !(self.skip_gap(allow_comments).1 is Rejected),
        ensures
            self.has_counted(self.skip_gap(allow_comments).0),
        decreases self.pending.bytes.len(),
    {
        self.lemma_gap_step(allow_comments);
        let (first, end) = self.gap_step(allow_comments);
        if end is Some {
            self.lemma_last_step(allow_comments);
        } else {
            self.lemma_step_is_counted(allow_comments);
            first.lemma_gap_is_counted(allow_comments);
            self.lemma_both_counted(first, self.skip_gap(allow_comments).0);
        }
    }
}

} // verus!
