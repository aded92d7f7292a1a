//! Texts for positions, errors and buffered data.

use struson::chars::parse_unicode_escape_hex_digit;
use struson::describe::{describe_io_error, describe_number, describe_path};
use struson::error::{JsonSyntaxError, SyntaxErrorKind};
use struson::position::{JsonPathPiece, JsonReaderPosition, LinePosition};
use struson::snapshot::{describe_buffer, BufferDescription};
use struson::utf8::encode;

#[test]
fn number_texts() {
    for number in [0, 9, 10, 99, 100, 12_345, u64::MAX] {
        assert_eq!(number.to_string(), describe_number(number));
    }
}

#[test]
fn path_texts() {
    assert_eq!("$", describe_path(&Vec::new()));
    assert_eq!(
        "$[10].a b[4294967295]",
        describe_path(&vec![
            JsonPathPiece::ArrayItem(10),
            JsonPathPiece::ObjectMember("a b".to_owned()),
            JsonPathPiece::ArrayItem(u32::MAX),
        ])
    );
}

#[test]
fn position_texts() {
    fn position(
        path: Option<Vec<JsonPathPiece>>,
        line_pos: Option<LinePosition>,
        data_pos: Option<u64>,
    ) -> String {
        JsonReaderPosition {
            path,
            line_pos,
            data_pos,
        }
        .describe()
    }
    let line_pos = Some(LinePosition { line: 3, column: 4 });

    assert_eq!("<location unavailable>", position(None, None, None));
    assert_eq!("data pos 5", position(None, None, Some(5)));
    assert_eq!("line 3, column 4", position(None, line_pos, None));
    assert_eq!("line 3, column 4 (data pos 5)", position(None, line_pos, Some(5)));
    assert_eq!("path '$'", position(Some(Vec::new()), None, None));
    assert_eq!("path '$' (data pos 5)", position(Some(Vec::new()), None, Some(5)));
    assert_eq!(
        "path '$', line 3, column 4",
        position(Some(Vec::new()), line_pos, None)
    );
    assert_eq!(
        "path '$[0]', line 3, column 4 (data pos 5)",
        position(Some(vec![JsonPathPiece::ArrayItem(0)]), line_pos, Some(5))
    );
}

#[test]
fn error_texts() {
    let location = JsonReaderPosition {
        path: None,
        line_pos: None,
        data_pos: Some(1),
    };
    assert_eq!(
        "IO error 'broken pipe' at (roughly) data pos 1",
        describe_io_error("broken pipe", &location)
    );
    let error = JsonSyntaxError {
        kind: SyntaxErrorKind::MissingComma,
        location,
    };
    assert_eq!("JSON syntax error MissingComma at data pos 1", error.describe());
}

#[test]
fn buffer_texts() {
    assert_eq!(
        BufferDescription {
            count: 0,
            text: String::new(),
            invalid_bytes: None
        },
        describe_buffer(b"")
    );
    // 45 chars are shown, regardless of how many bytes they have
    let longest = "\u{20AC}".repeat(45);
    assert_eq!(
        BufferDescription {
            count: 135,
            text: longest.clone(),
            invalid_bytes: None
        },
        describe_buffer(longest.as_bytes())
    );
    let too_long = longest.clone() + "a";
    assert_eq!(
        BufferDescription {
            count: 136,
            text: longest.clone() + "...",
            invalid_bytes: None
        },
        describe_buffer(too_long.as_bytes())
    );
    // At most 30 invalid bytes are shown, and only behind a short text
    let mut bytes = b"abc".to_vec();
    bytes.extend([0xFF; 40]);
    assert_eq!(
        BufferDescription {
            count: 43,
            text: "abc...".to_owned(),
            invalid_bytes: Some(vec![0xFF; 30])
        },
        describe_buffer(&bytes)
    );
    assert_eq!(
        BufferDescription {
            count: 16,
            text: "aaaaaaaaaaaaaaa...".to_owned(),
            invalid_bytes: None
        },
        describe_buffer(b"aaaaaaaaaaaaaaa\xFF")
    );
}

#[test]
fn encoded_chars() {
    for c in ['\0', '\x7F', '\u{80}', '\u{7FF}', '\u{800}', '\u{FFFF}', '\u{10000}', '\u{10FFFF}'] {
        assert_eq!(c.to_string().as_bytes(), encode(u32::from(c)).as_slice());
    }
}

#[test]
fn hex_digits() {
    for byte in 0..=u8::MAX {
        assert_eq!(
            char::from(byte).to_digit(16),
            parse_unicode_escape_hex_digit(byte)
        );
    }
}
