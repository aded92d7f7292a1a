//! UTF-8: classification and validation of bytes, encoding of code points and
//! conversion of validated bytes to strings.

use vstd::prelude::*;
use vstd::utf8::*;

verus! {

/// Maximum number of UTF-8 bytes needed to encode one Unicode scalar value.
pub const MAX_BYTES_PER_CHAR: usize = 4;

/// Whether the byte represents a single byte char (an ASCII char).
pub fn is_1byte(byte: u8) -> (result: bool)
    ensures
        result == is_leading_byte_width_1(byte),
{
    byte <= 0x7F
}

/// Whether the byte is a continuation byte of a multi-byte char.
pub fn is_continuation(byte: u8) -> (result: bool)
    ensures
        result == is_continuation_byte(byte),
{
    0x80 <= byte && byte <= 0xBF
}

/// Whether the byte is the start of a 2 byte char.
pub fn is_2byte_start(byte: u8) -> (result: bool)
    ensures
        result == is_leading_byte_width_2(byte),
{
    0xC0 <= byte && byte <= 0xDF
}

/// Whether the byte is the start of a 3 byte char.
pub fn is_3byte_start(byte: u8) -> (result: bool)
    ensures
        result == is_leading_byte_width_3(byte),
{
    0xE0 <= byte && byte <= 0xEF
}

/// Whether the byte is the start of a 4 byte char.
pub fn is_4byte_start(byte: u8) -> (result: bool)
    ensures
        result == is_leading_byte_width_4(byte),
{
    0xF0 <= byte && byte <= 0xF7
}

/// Whether a 2 byte sequence of the right shape encodes a code point that needs 2 bytes.
pub fn is_valid_2bytes(b0: u8, b1: u8) -> (result: bool)
    requires
        is_leading_byte_width_2(b0),
        is_continuation_byte(b1),
    ensures
        result == valid_first_scalar(seq![b0, b1]),
{
    proof {
        assert((0xC0 <= b0 <= 0xDF && 0x80 <= b1 <= 0xBF) ==> {
            let c = (((b0 & 0x1F) as u32) << 6) | ((b1 & 0x3F) as u32);
            &&& (c >= 0x80 <==> b0 >= 0xC2)
            &&& c < 0x800
        }) by (bit_vector);
    }
    b0 >= 0xC2
}

/// Whether a 3 byte sequence of the right shape encodes a code point that needs 3 bytes
/// and is no surrogate.
pub fn is_valid_3bytes(b0: u8, b1: u8, b2: u8) -> (result: bool)
    requires
        is_leading_byte_width_3(b0),
        is_continuation_byte(b1),
        is_continuation_byte(b2),
    ensures
        result == valid_first_scalar(seq![b0, b1, b2]),
{
    proof {
        assert((0xE0 <= b0 <= 0xEF && 0x80 <= b1 <= 0xBF && 0x80 <= b2 <= 0xBF) ==> {
            let c = (((b0 & 0x0F) as u32) << 12) | (((b1 & 0x3F) as u32) << 6) | ((b2 & 0x3F) as u32);
            &&& (c >= 0x800 <==> (b0 != 0xE0 || b1 >= 0xA0))
            &&& (0xD800 <= c <= 0xDFFF <==> (b0 == 0xED && b1 >= 0xA0))
        }) by (bit_vector);
    }
    (b0 != 0xE0 || b1 >= 0xA0) && (b0 != 0xED || b1 < 0xA0)
}

/// Whether a 4 byte sequence of the right shape encodes a code point between U+10000
/// and U+10FFFF.
pub fn is_valid_4bytes(b0: u8, b1: u8, b2: u8, b3: u8) -> (result: bool)
    requires
        is_leading_byte_width_4(b0),
        is_continuation_byte(b1),
        is_continuation_byte(b2),
        is_continuation_byte(b3),
    ensures
        result == valid_first_scalar(seq![b0, b1, b2, b3]),
{
    proof {
        assert((0xF0 <= b0 <= 0xF7 && 0x80 <= b1 <= 0xBF && 0x80 <= b2 <= 0xBF && 0x80 <= b3
            <= 0xBF) ==> {
            let c = (((b0 & 0x07) as u32) << 18) | (((b1 & 0x3F) as u32) << 12) | (((b2
                & 0x3F) as u32) << 6) | ((b3 & 0x3F) as u32);
            &&& (c >= 0x10000 <==> (b0 != 0xF0 || b1 >= 0x90))
            &&& (c <= 0x10FFFF <==> (b0 < 0xF4 || (b0 == 0xF4 && b1 < 0x90)))
        }) by (bit_vector);
    }
    (b0 != 0xF0 || b1 >= 0x90) && (b0 < 0xF4 || (b0 == 0xF4 && b1 < 0x90))
}

/// The UTF-8 bytes of a Unicode scalar value.
pub fn encode(scalar: u32) -> (bytes: Vec<u8>)
    requires
        is_scalar(scalar),
    ensures
        bytes@ == encode_scalar(scalar),
        valid_utf8(bytes@),
{
    let mut bytes: Vec<u8> = Vec::with_capacity(MAX_BYTES_PER_CHAR);
    if scalar <= 0x7F {
        bytes.push((scalar & 0x7F) as u8);
    } else if scalar <= 0x7FF {
        bytes.push(0xC0 | ((scalar >> 6) & 0x1F) as u8);
        bytes.push(0x80 | (scalar & 0x3F) as u8);
    } else if scalar <= 0xFFFF {
        bytes.push(0xE0 | ((scalar >> 12) & 0x0F) as u8);
        bytes.push(0x80 | ((scalar >> 6) & 0x3F) as u8);
        bytes.push(0x80 | (scalar & 0x3F) as u8);
    } else {
        bytes.push(0xF0 | ((scalar >> 18) & 0x7) as u8);
        bytes.push(0x80 | ((scalar >> 12) & 0x3F) as u8);
        bytes.push(0x80 | ((scalar >> 6) & 0x3F) as u8);
        bytes.push(0x80 | (scalar & 0x3F) as u8);
    }
    proof {
        assert(bytes@ =~= encode_scalar(scalar));
        lemma_encode_scalar_valid(scalar);
    }
    bytes
}

/// The encoding of a single scalar value is valid UTF-8 and decodes to that value.
pub proof fn lemma_encode_scalar_valid(scalar: u32)
    requires
        is_scalar(scalar),
    ensures
        valid_utf8(encode_scalar(scalar)),
        decode_utf8(encode_scalar(scalar)) == seq![scalar as char],
        1 <= encode_scalar(scalar).len() <= MAX_BYTES_PER_CHAR,
{
    let chars = seq![scalar as char];
    reveal_with_fuel(encode_utf8, 2);
    assert(chars.drop_first() =~= Seq::<char>::empty());
    assert(encode_utf8(chars) =~= encode_scalar(scalar));
    encode_utf8_valid_utf8(chars);
    encode_utf8_decode_utf8(chars);
}

/// Bytes that form exactly one well-formed char are valid UTF-8.
pub proof fn lemma_single_scalar_valid(bytes: Seq<u8>)
    requires
        valid_first_scalar(bytes),
        bytes.len() == length_of_first_scalar(bytes),
    ensures
        valid_utf8(bytes),
{
    reveal_with_fuel(valid_utf8, 2);
    assert(pop_first_scalar(bytes) =~= Seq::<u8>::empty());
}

/// The chars of concatenated bytes are the concatenated chars.
pub proof fn lemma_decode_concat(first: Seq<u8>, second: Seq<u8>)
    requires
        valid_utf8(first),
        valid_utf8(second),
    ensures
        valid_utf8(first + second),
        decode_utf8(first + second) == decode_utf8(first) + decode_utf8(second),
    decreases first.len(),
{
    valid_utf8_concat(first, second);
    if first.len() == 0 {
        assert(first + second =~= second);
        assert(decode_utf8(first) + decode_utf8(second) =~= decode_utf8(second));
    } else {
        let rest = pop_first_scalar(first);
        let whole = first + second;
        assert(length_of_first_scalar(whole) == length_of_first_scalar(first));
        assert(decode_first_scalar(whole) == decode_first_scalar(first));
        assert(pop_first_scalar(whole) =~= rest + second);
        lemma_decode_concat(rest, second);
        assert(decode_utf8(whole) =~= decode_utf8(first) + decode_utf8(second));
    }
}

/// Borrows validated bytes as string.
///
/// Calls [`std::str::from_utf8`], which accepts exactly the bytes that are valid UTF-8 and
/// then returns the string with these bytes.
#[verifier::external_body]
pub(crate) fn to_str(bytes: &[u8]) -> (result: &str)
    requires
        valid_utf8(bytes@),
    ensures
        result@ == decode_utf8(bytes@),
{
    std::str::from_utf8(bytes).unwrap()
}

/// Converts validated bytes to a string.
///
/// Calls [`String::from_utf8`], which accepts exactly the bytes that are valid UTF-8 and
/// then returns the string with these bytes.
#[verifier::external_body]
pub(crate) fn to_string(bytes: Vec<u8>) -> (result: String)
    requires
        valid_utf8(bytes@),
    ensures
        result@ == decode_utf8(bytes@),
{
    String::from_utf8(bytes).unwrap()
}

} // verus!
