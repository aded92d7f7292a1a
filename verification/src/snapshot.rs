//! Insight into the state of the JSON reader, for debugging.

use vstd::prelude::*;
use vstd::slice::slice_subrange;
use vstd::utf8::*;

use crate::utf8;

verus! {

/// Maximum number of chars of the buffered data which are shown.
pub const MAX_SHOWN_CHARS: usize = 45;

/// Maximum number of bytes which are shown of data that is not valid UTF-8.
pub const MAX_SHOWN_BYTES: usize = 30;

/// Invalid bytes are shown only if the shown text before them is shorter than this.
pub const LONG_TEXT_LEN: usize = 15;

/// Description of buffered data
#[derive(Debug, PartialEq, Eq)]
pub struct BufferDescription {
    /// Number of bytes
    pub count: usize,
    /// Start of the data; ends with `...` if it is incomplete
    pub text: String,
    /// Some of the bytes which follow the text and are not valid UTF-8
    pub invalid_bytes: Option<Vec<u8>>,
}

/// The length of the longest prefix which is valid UTF-8.
pub open spec fn valid_prefix_len(bytes: Seq<u8>) -> int
    decreases bytes.len(),
{
    if bytes.len() > 0 && valid_first_scalar(bytes) {
        length_of_first_scalar(bytes) + valid_prefix_len(pop_first_scalar(bytes))
    } else {
        0
    }
}

/// The chars of the valid prefix which are shown.
pub open spec fn shown_chars(bytes: Seq<u8>) -> Seq<char> {
    let chars = decode_utf8(bytes.take(valid_prefix_len(bytes)));
    if chars.len() > MAX_SHOWN_CHARS {
        chars.take(MAX_SHOWN_CHARS as int)
    } else {
        chars
    }
}

/// Whether all of the data is shown.
pub open spec fn is_shown_completely(bytes: Seq<u8>) -> bool {
    &&& valid_prefix_len(bytes) == bytes.len()
    &&& decode_utf8(bytes).len() <= MAX_SHOWN_CHARS
}

/// The text shown for buffered data.
pub open spec fn shown_text(bytes: Seq<u8>) -> Seq<char> {
    if is_shown_completely(bytes) {
        shown_chars(bytes)
    } else {
        shown_chars(bytes) + "..."@
    }
}

/// The invalid bytes shown for buffered data.
pub open spec fn shown_bytes(bytes: Seq<u8>) -> Option<Seq<u8>> {
    let start = valid_prefix_len(bytes);
    let end = if start + MAX_SHOWN_BYTES <= bytes.len() {
        start + MAX_SHOWN_BYTES
    } else {
        bytes.len() as int
    };
    if start < bytes.len() && encode_utf8(shown_chars(bytes)).len() < LONG_TEXT_LEN {
        Some(bytes.subrange(start, end))
    } else {
        None
    }
}

impl BufferDescription {
    /// Whether this describes the data.
    pub open spec fn describes(self, bytes: Seq<u8>) -> bool {
        &&& self.count == bytes.len()
        &&& self.text@ == shown_text(bytes)
        &&& match self.invalid_bytes {
            Some(invalid_bytes) => shown_bytes(bytes) == Some(invalid_bytes@),
            None => shown_bytes(bytes) is None,
        }
    }
}

/// The length of the char which starts at an index; 0 if there is no valid char.
fn char_len(bytes: &[u8], at: usize) -> (len: usize)
    requires
        at < bytes@.len(),
    ensures
        ({
            let rest = bytes@.skip(at as int);
            len == if valid_first_scalar(rest) {
                length_of_first_scalar(rest)
            } else {
                0
            }
        }),
        at + len <= bytes@.len(),
{
    let available = bytes.len() - at;
    let byte0 = bytes[at];
    if utf8::is_1byte(byte0) {
        assert(byte0 & 0x7F <= 0x7F) by (bit_vector);
        return 1;
    }
    if utf8::is_2byte_start(byte0) {
        if available < 2 || !utf8::is_continuation(bytes[at + 1]) {
            return 0;
        }
        return if utf8::is_valid_2bytes(byte0, bytes[at + 1]) {
            2
        } else {
            0
        };
    }
    if utf8::is_3byte_start(byte0) {
        if available < 3 || !utf8::is_continuation(bytes[at + 1]) || !utf8::is_continuation(
            bytes[at + 2],
        ) {
            return 0;
        }
        return if utf8::is_valid_3bytes(byte0, bytes[at + 1], bytes[at + 2]) {
            3
        } else {
            0
        };
    }
    if utf8::is_4byte_start(byte0) {
        if available < 4 || !utf8::is_continuation(bytes[at + 1]) || !utf8::is_continuation(
            bytes[at + 2],
        ) || !utf8::is_continuation(bytes[at + 3]) {
            return 0;
        }
        return if utf8::is_valid_4bytes(byte0, bytes[at + 1], bytes[at + 2], bytes[at + 3]) {
            4
        } else {
            0
        };
    }
    0
}

/// A prefix of valid UTF-8 data and its next char are valid UTF-8 together.
proof fn lemma_next_char(bytes: Seq<u8>, at: int)
    requires
        0 <= at < bytes.len(),
        valid_utf8(bytes.take(at)),
        valid_first_scalar(bytes.skip(at)),
    ensures
        ({
            let end = at + length_of_first_scalar(bytes.skip(at));
            &&& end <= bytes.len()
            &&& valid_utf8(bytes.take(end))
            &&& decode_utf8(bytes.take(end)) == decode_utf8(bytes.take(at)).push(
                decode_first_scalar(bytes.skip(at)) as char,
            )
            &&& valid_prefix_len(bytes.skip(at)) == length_of_first_scalar(bytes.skip(at))
                + valid_prefix_len(bytes.skip(end))
        }),
{
    let rest = bytes.skip(at);
    let len = length_of_first_scalar(rest);
    let end = at + len;
    let char = rest.take(len);
    utf8::lemma_single_scalar_valid(char);
    assert(bytes.take(end) =~= bytes.take(at) + char);
    utf8::lemma_decode_concat(bytes.take(at), char);
    reveal_with_fuel(decode_utf8, 2);
    assert(pop_first_scalar(char) =~= Seq::empty());
    assert(decode_utf8(char) =~= seq![decode_first_scalar(rest) as char]);
    assert(pop_first_scalar(rest) =~= bytes.skip(end));
    assert(decode_utf8(bytes.take(end)) =~= decode_utf8(bytes.take(at)).push(
        decode_first_scalar(rest) as char,
    ));
}

/// Describes buffered data, with at most the first 45 chars of its text.
pub fn describe_buffer(bytes: &[u8]) -> (description: BufferDescription)
    ensures
        description.describes(bytes@),
{
    // End of the valid chars, number of these, and end of the shown ones
    let mut end: usize = 0;
    let mut count: usize = 0;
    let mut shown_end: usize = 0;
    proof {
        assert(bytes@.take(0) =~= Seq::empty());
        assert(bytes@.skip(0) =~= bytes@);
    }
    loop
        invariant
            end <= bytes@.len(),
            shown_end <= end,
            count <= end,
            valid_utf8(bytes@.take(end as int)),
            decode_utf8(bytes@.take(end as int)).len() == count,
            valid_prefix_len(bytes@) == end + valid_prefix_len(bytes@.skip(end as int)),
            valid_utf8(bytes@.take(shown_end as int)),
            decode_utf8(bytes@.take(shown_end as int)) == if count > MAX_SHOWN_CHARS {
                decode_utf8(bytes@.take(end as int)).take(MAX_SHOWN_CHARS as int)
            } else {
                decode_utf8(bytes@.take(end as int))
            },
        ensures
            valid_prefix_len(bytes@) == end,
        decreases bytes@.len() - end,
    {
        if end == bytes.len() {
            break;
        }
        let len = char_len(bytes, end);
        if len == 0 {
            break;
        }
        proof {
            lemma_next_char(bytes@, end as int);
        }
        let ghost before = decode_utf8(bytes@.take(end as int));
        end = end + len;
        count = count + 1;
        if count <= MAX_SHOWN_CHARS {
            shown_end = end;
        } else {
            assert(decode_utf8(bytes@.take(end as int)).take(MAX_SHOWN_CHARS as int) =~= before.take(
                MAX_SHOWN_CHARS as int,
            ));
            if count == MAX_SHOWN_CHARS + 1 {
                assert(before.take(MAX_SHOWN_CHARS as int) =~= before);
            }
        }
    }
    let mut text = utf8::to_str(slice_subrange(bytes, 0, shown_end)).to_owned();
    proof {
        assert(bytes@.subrange(0, shown_end as int) =~= bytes@.take(shown_end as int));
        assert(text@ == shown_chars(bytes@));
        decode_utf8_encode_utf8(bytes@.take(shown_end as int));
        if end == bytes@.len() {
            assert(bytes@.take(end as int) =~= bytes@);
        }
    }
    let invalid_bytes = if end < bytes.len() && shown_end < LONG_TEXT_LEN {
        let invalid_end = if bytes.len() - end > MAX_SHOWN_BYTES {
            end + MAX_SHOWN_BYTES
        } else {
            bytes.len()
        };
        Some(vstd::slice::slice_to_vec(slice_subrange(bytes, end, invalid_end)))
    } else {
        None
    };
    if end < bytes.len() || count > MAX_SHOWN_CHARS {
        text.append("...");
    }
    BufferDescription { count: bytes.len(), text, invalid_bytes }
}

} // verus!
