//! Tests of the JSON reader, with a driver which feeds it from a `std::io::Read`.

use std::fmt::Debug;
use std::io::{ErrorKind, Read};

use struson::buffer::READER_BUF_SIZE;
use struson::describe::describe_io_error;
use struson::error::{
    IoError, JsonSyntaxError, ReaderError, Stop, SyntaxErrorKind, UnexpectedStructureKind,
    ValueType,
};
use struson::model::Operation;
use struson::position::{JsonPathPiece, JsonReaderPosition, LinePosition};
use struson::reader::input::{FillAction, ReadEvent};
use struson::reader::string_value::{StringReadStop, StringValueReader};
use struson::reader::transferring::TransferAction;
use struson::reader::JsonStreamReader;
use struson::settings::{ReaderSettings, DEFAULT_MAX_NESTING_DEPTH};

#[derive(Debug)]
struct TestError(String);

impl From<ReaderError> for TestError {
    fn from(error: ReaderError) -> Self {
        TestError(format!("{error:?}"))
    }
}

impl From<StringReadError> for TestError {
    fn from(error: StringReadError) -> Self {
        TestError(error.text())
    }
}

impl From<TransferError> for TestError {
    fn from(error: TransferError) -> Self {
        TestError(format!("{error:?}"))
    }
}

type TestResult = Result<(), TestError>;

/// Feeds a JSON reader; panics on incorrect usage.
struct Driver<R> {
    reader: JsonStreamReader<R>,
    /// Message of the last error of the source
    source_error: String,
}

impl<R: Read> Driver<R> {
    fn new(source: R) -> Self {
        Driver {
            reader: JsonStreamReader::new(source),
            source_error: String::new(),
        }
    }

    fn new_custom(source: R, settings: ReaderSettings) -> Self {
        Driver {
            reader: JsonStreamReader::new_custom(source, settings),
            source_error: String::new(),
        }
    }

    fn fill(&mut self) -> Result<(), ReaderError> {
        let mut buf = vec![0_u8; self.reader.read_capacity()];
        loop {
            let result = self.reader.reader_mut().read(&mut buf);
            let action = match result {
                Ok(count) => {
                    assert!(self.reader.accepts(count));
                    self.reader.fill_buffer(ReadEvent::Data(&buf[..count]))
                }
                Err(e) if e.kind() == ErrorKind::Interrupted => {
                    self.reader.fill_buffer(ReadEvent::Interrupted)
                }
                Err(e) => {
                    self.source_error = e.to_string();
                    self.reader.fill_buffer(ReadEvent::Failed)
                }
            };
            match action {
                FillAction::Continue => return Ok(()),
                FillAction::Retry => {}
                FillAction::Fail(error) => return Err(error),
            }
        }
    }

    fn run<T>(
        &mut self,
        operation: Operation,
        call: impl Fn(&mut JsonStreamReader<R>) -> Result<T, Stop>,
    ) -> Result<T, ReaderError> {
        if let Some(misuse) = self.reader.check_usage(operation) {
            panic!("{}", misuse.message());
        }
        loop {
            match call(&mut self.reader) {
                Ok(value) => return Ok(value),
                Err(Stop::Error(error)) => return Err(error),
                Err(Stop::NeedsInput) => self.fill()?,
            }
        }
    }

    fn peek(&mut self) -> Result<ValueType, ReaderError> {
        self.run(Operation::Peek, |r| r.peek())
    }

    fn begin_array(&mut self) -> Result<(), ReaderError> {
        self.run(Operation::BeginArray, |r| r.begin_array())
    }

    fn end_array(&mut self) -> Result<(), ReaderError> {
        self.run(Operation::EndArray, |r| r.end_array())
    }

    fn begin_object(&mut self) -> Result<(), ReaderError> {
        self.run(Operation::BeginObject, |r| r.begin_object())
    }

    fn end_object(&mut self) -> Result<(), ReaderError> {
        self.run(Operation::EndObject, |r| r.end_object())
    }

    fn has_next(&mut self) -> Result<bool, ReaderError> {
        self.run(Operation::HasNext, |r| r.has_next())
    }

    fn next_name(&mut self) -> Result<String, ReaderError> {
        self.run(Operation::NextName, |r| r.next_name().map(str::to_owned))
    }

    fn next_name_owned(&mut self) -> Result<String, ReaderError> {
        self.run(Operation::NextName, |r| r.next_name_owned())
    }

    fn next_str(&mut self) -> Result<String, ReaderError> {
        self.run(Operation::NextString, |r| r.next_str().map(str::to_owned))
    }

    fn next_string(&mut self) -> Result<String, ReaderError> {
        self.run(Operation::NextString, |r| r.next_string())
    }

    fn next_string_reader(&mut self) -> Result<StringDriver<'_, R>, ReaderError> {
        let reader = self.run(Operation::NextStringReader, |r| r.next_string_reader())?;
        Ok(StringDriver {
            driver: self,
            reader,
        })
    }

    fn next_number_as_str(&mut self) -> Result<String, ReaderError> {
        self.run(Operation::NextNumber, |r| {
            r.next_number_as_str().map(str::to_owned)
        })
    }

    fn next_number_as_string(&mut self) -> Result<String, ReaderError> {
        self.run(Operation::NextNumber, |r| r.next_number_as_string())
    }

    fn next_number<T: std::str::FromStr>(&mut self) -> Result<Result<T, T::Err>, ReaderError> {
        Ok(self.next_number_as_str()?.parse())
    }

    fn next_bool(&mut self) -> Result<bool, ReaderError> {
        self.run(Operation::NextBool, |r| r.next_bool())
    }

    fn next_null(&mut self) -> Result<(), ReaderError> {
        self.run(Operation::NextNull, |r| r.next_null())
    }

    fn skip_name(&mut self) -> Result<(), ReaderError> {
        self.run(Operation::SkipName, |r| r.skip_name())
    }

    fn skip_value(&mut self) -> Result<(), ReaderError> {
        self.run(Operation::SkipValue, |r| r.skip_value())
    }

    fn skip_to_top_level(&mut self) -> Result<(), ReaderError> {
        self.run(Operation::SkipToTopLevel, |r| r.skip_to_top_level())
    }

    fn consume_trailing_whitespace(mut self) -> Result<(), ReaderError> {
        self.run(Operation::ConsumeTrailingWhitespace, |r| {
            r.consume_trailing_whitespace()
        })
    }

    /// Moves to the value at the path; expects that it exists.
    fn seek_to(&mut self, path: &[JsonPathPiece]) -> Result<(), ReaderError> {
        for piece in path {
            match piece {
                JsonPathPiece::ArrayItem(index) => {
                    self.begin_array()?;
                    for _ in 0..*index {
                        self.skip_value()?;
                    }
                }
                JsonPathPiece::ObjectMember(name) => {
                    self.begin_object()?;
                    while self.next_name()? != *name {
                        self.skip_value()?;
                    }
                }
            }
        }
        Ok(())
    }

    fn transfer_to(&mut self, writer: &mut impl Writer) -> Result<(), TransferError> {
        loop {
            let action = self
                .run(Operation::TransferTo, |r| r.transfer_next())
                .map_err(TransferError::ReaderError)?;
            if action == TransferAction::Finished {
                return Ok(());
            }
            if let Err(error) = writer.write(action) {
                self.reader.abandon();
                return Err(TransferError::WriterError(error));
            }
        }
    }

    fn current_position(&self, include_path: bool) -> JsonReaderPosition {
        self.reader.current_position(include_path)
    }

    fn column(&self) -> u64 {
        self.current_position(false).line_pos.unwrap().column
    }
}

impl<R: Debug> Driver<R> {
    /// The state of the reader as text.
    fn debug_text(&self) -> String {
        let snapshot = self.reader.snapshot();
        let buffer = match &snapshot.buffer {
            Some(buffer) => {
                let invalid = match &buffer.invalid_bytes {
                    Some(bytes) => format!(", ...buf...: {bytes:?}"),
                    None => String::new(),
                };
                format!(
                    "buf_count: {}, buf_str: {:?}{}",
                    buffer.count, buffer.text, invalid
                )
            }
            None => "reached_eof: \"true\"".to_owned(),
        };
        format!(
            "JsonStreamReader {{ reader: {:?}, {}, peeked: {:?}, is_empty: {:?}, expects_member_name: {:?}, stack: {:?}, is_string_value_reader_active: {:?}, line: {:?}, column: {:?}, byte_pos: {:?}, json_path: {:?}, reader_settings: {:?} }}",
            self.reader.reader(),
            buffer,
            snapshot.peeked,
            snapshot.is_empty,
            snapshot.expects_member_name,
            snapshot.stack,
            snapshot.is_string_value_reader_active,
            snapshot.line_pos.line,
            snapshot.line_pos.column,
            snapshot.byte_pos,
            snapshot.json_path,
            snapshot.reader_settings,
        )
    }
}

/// Why reading bytes of a string value failed
#[derive(Debug)]
enum StringReadError {
    Reader(ReaderError),
    Source {
        message: String,
        location: JsonReaderPosition,
    },
    Previous(String),
}

impl StringReadError {
    fn text(&self) -> String {
        match self {
            StringReadError::Reader(ReaderError::SyntaxError(error)) => error.describe(),
            StringReadError::Reader(ReaderError::IoError { error, location }) => {
                describe_io_error(error.message(), location)
            }
            StringReadError::Reader(error) => format!("{error:?}"),
            StringReadError::Source { message, location } => describe_io_error(message, location),
            StringReadError::Previous(text) => text.clone(),
        }
    }
}

/// Feeds a JSON reader while a string value is read in a streaming way.
struct StringDriver<'a, R> {
    driver: &'a mut Driver<R>,
    reader: StringValueReader,
}

impl<R: Read> StringDriver<'_, R> {
    fn read(&mut self, buf: &mut [u8]) -> Result<usize, StringReadError> {
        let mut bytes = Vec::new();
        loop {
            match self
                .reader
                .read(&mut self.driver.reader, &mut bytes, buf.len())
            {
                Ok(()) => {
                    buf[..bytes.len()].copy_from_slice(&bytes);
                    return Ok(bytes.len());
                }
                Err(StringReadStop::NeedsInput) => {
                    if let Err(ReaderError::IoError { location, .. }) = self.driver.fill() {
                        let message = self.driver.source_error.clone();
                        self.reader.record_source_error(&message, &location);
                        return Err(StringReadError::Source { message, location });
                    }
                }
                Err(StringReadStop::Error(error)) => return Err(StringReadError::Reader(error)),
                Err(StringReadStop::PreviousError(text)) => {
                    return Err(StringReadError::Previous(text))
                }
            }
        }
    }

    fn read_to_string(&mut self, text: &mut String) -> Result<(), StringReadError> {
        let mut bytes = Vec::new();
        let mut buf = [0_u8; 32];
        loop {
            let count = self.read(&mut buf)?;
            if count == 0 {
                text.push_str(std::str::from_utf8(&bytes).unwrap());
                return Ok(());
            }
            bytes.extend_from_slice(&buf[..count]);
        }
    }
}

#[derive(Debug)]
enum TransferError {
    ReaderError(ReaderError),
    WriterError(std::io::Error),
}

/// Receives what is transferred.
trait Writer {
    fn write(&mut self, action: TransferAction) -> Result<(), std::io::Error>;
}

/// Writes compact JSON.
struct CompactWriter {
    json: String,
    needs_comma: bool,
}

impl CompactWriter {
    fn new() -> Self {
        CompactWriter {
            json: String::new(),
            needs_comma: false,
        }
    }

    fn before_element(&mut self) {
        if self.needs_comma {
            self.json.push(',');
        }
        self.needs_comma = true;
    }

    fn push_string_part(&mut self, text: &str) {
        for c in text.chars() {
            match c {
                '"' => self.json.push_str("\\\""),
                '\\' => self.json.push_str("\\\\"),
                '\n' => self.json.push_str("\\n"),
                '\0'..='\x1F' => self.json.push_str(&format!("\\u{:04X}", u32::from(c))),
                _ => self.json.push(c),
            }
        }
    }

    fn begin_array(&mut self) {
        self.before_element();
        self.json.push('[');
        self.needs_comma = false;
    }

    fn end_array(&mut self) {
        self.json.push(']');
        self.needs_comma = true;
    }
}

impl Writer for CompactWriter {
    fn write(&mut self, action: TransferAction) -> Result<(), std::io::Error> {
        match action {
            TransferAction::BeginArray => self.begin_array(),
            TransferAction::EndArray => self.end_array(),
            TransferAction::BeginObject => {
                self.before_element();
                self.json.push('{');
                self.needs_comma = false;
            }
            TransferAction::EndObject => {
                self.json.push('}');
                self.needs_comma = true;
            }
            TransferAction::Name(name) => {
                self.before_element();
                self.json.push('"');
                self.push_string_part(&name);
                self.json.push_str("\":");
                self.needs_comma = false;
            }
            TransferAction::BeginString => {
                self.before_element();
                self.json.push('"');
            }
            TransferAction::StringPiece { text, last } => {
                self.push_string_part(&text);
                if last {
                    self.json.push('"');
                }
            }
            TransferAction::Number(number) => {
                self.before_element();
                self.json.push_str(&number);
            }
            TransferAction::Bool(value) => {
                self.before_element();
                self.json.push_str(if value { "true" } else { "false" });
            }
            TransferAction::Null => {
                self.before_element();
                self.json.push_str("null");
            }
            TransferAction::Finished => {}
        }
        Ok(())
    }
}

fn item(index: u32) -> JsonPathPiece {
    JsonPathPiece::ArrayItem(index)
}

fn member(name: &str) -> JsonPathPiece {
    JsonPathPiece::ObjectMember(name.to_owned())
}

fn copy_path(path: &[JsonPathPiece]) -> Vec<JsonPathPiece> {
    path.iter()
        .map(|piece| match piece {
            JsonPathPiece::ArrayItem(index) => item(*index),
            JsonPathPiece::ObjectMember(name) => member(name),
        })
        .collect()
}

fn new_reader(json: &str) -> Driver<&[u8]> {
    Driver::new(json.as_bytes())
}

fn assert_parse_error_with_byte_pos<T>(
    // input is only used for display purposes; enhances error messages for loops testing multiple inputs
    input: Option<&str>,
    result: Result<T, ReaderError>,
    expected_kind: SyntaxErrorKind,
    expected_path: &[JsonPathPiece],
    expected_column: u64,
    expected_byte_pos: u64,
) {
    let input_display_str = input.map_or("".to_owned(), |s| format!(" for '{s}'"));
    match result {
        Ok(_) => panic!("Test should have failed{}", input_display_str),
        Err(e) => match e {
            ReaderError::SyntaxError(e) => assert_eq!(
                JsonSyntaxError {
                    kind: expected_kind,
                    location: JsonReaderPosition {
                        path: Some(copy_path(expected_path)),
                        line_pos: Some(LinePosition {
                            line: 0,
                            column: expected_column
                        }),
                        data_pos: Some(expected_byte_pos),
                    },
                },
                e,
                "For input: {:?}",
                input
            ),
            other => {
                panic!("Unexpected error{}: {other:?}", input_display_str)
            }
        },
    }
}

fn assert_parse_error_with_path<T>(
    // input is only used for display purposes; enhances error messages for loops testing multiple inputs
    input: Option<&str>,
    result: Result<T, ReaderError>,
    expected_kind: SyntaxErrorKind,
    expected_path: &[JsonPathPiece],
    expected_column: u64,
) {
    assert_parse_error_with_byte_pos(
        input,
        result,
        expected_kind,
        expected_path,
        expected_column,
        // Assume input is ASCII only on single line; treat column as byte pos
        expected_column,
    )
}

fn assert_parse_error<T>(
    input: Option<&str>,
    result: Result<T, ReaderError>,
    expected_kind: SyntaxErrorKind,
    expected_column: u64,
) {
    assert_parse_error_with_path(input, result, expected_kind, &[], expected_column);
}

#[test]
fn literals() -> TestResult {
    let mut json_reader = new_reader("[true, false, null]");
    json_reader.begin_array()?;

    assert_eq!(true, json_reader.next_bool()?);
    assert_eq!(false, json_reader.next_bool()?);
    json_reader.next_null()?;

    json_reader.end_array()?;

    json_reader.consume_trailing_whitespace()?;

    Ok(())
}

#[test]
fn literals_invalid() -> TestResult {
    let invalid_numbers = ["truE", "tru", "falsE", "fal", "nuLl", "nu"];
    for invalid_number in invalid_numbers {
        let mut json_reader = new_reader(invalid_number);
        assert_parse_error(
            Some(invalid_number),
            json_reader.next_number_as_string(),
            SyntaxErrorKind::InvalidLiteral,
            0,
        );
    }

    let mut json_reader = new_reader("truey");
    assert_parse_error(
        None,
        json_reader.peek(),
        SyntaxErrorKind::TrailingDataAfterLiteral,
        0,
    );

    Ok(())
}

/// Verifies that valid trailing data after literal does not prevent literal from being parsed
#[test]
fn literals_valid_trailing_data() -> TestResult {
    for whitespace in ["", " ", "\t", "\r", "\n", "\r\n"] {
        let json = format!("true{whitespace}");
        let mut json_reader = new_reader(&json);
        assert_eq!(true, json_reader.next_bool()?);
        json_reader.consume_trailing_whitespace()?;
    }

    let mut json_reader = new_reader("[true,true]");
    json_reader.begin_array()?;
    assert_eq!(true, json_reader.next_bool()?);
    assert_eq!(true, json_reader.next_bool()?);
    json_reader.end_array()?;

    let mut json_reader = new_reader(r#"{"a":true}"#);
    json_reader.begin_object()?;
    assert_eq!("a", json_reader.next_name_owned()?);
    assert_eq!(true, json_reader.next_bool()?);
    json_reader.end_object()?;

    let mut json_reader = new_reader_with_comments("true// a");
    assert_eq!(true, json_reader.next_bool()?);
    json_reader.consume_trailing_whitespace()?;

    Ok(())
}

#[test]
fn next_number_as_str() -> TestResult {
    let mut json_reader =
        new_reader("[0, -0, -1, -9, 123, 56.0030, -0.1, 1.01e+03, -4.50E-40]");

    json_reader.begin_array()?;

    let expected = ["0",
    "-0",
    "-1",
    "-9",
    "123",
    "56.0030",
    "-0.1",
    "1.01e+03",
    "-4.50E-40",];
    for expected in expected {
        assert_eq!(expected, json_reader.next_number_as_str()?);
    }

    json_reader.end_array()?;
    json_reader.consume_trailing_whitespace()?;

    // Also include large number to make sure value buffer is correctly reused / replaced
    let large_number = "123".repeat(READER_BUF_SIZE);
    let json = format!("[1, {large_number}, {large_number}, 2, {large_number}, 3]");
    let mut json_reader = Driver::new_custom(
        json.as_bytes(),
        ReaderSettings {
            restrict_number_values: false,
            ..Default::default()
        },
    );

    json_reader.begin_array()?;

    let expected = [
            "1",
            &large_number,
            &large_number,
            "2",
            &large_number,
            "3",
        ];

    for expected in expected {
        assert_eq!(expected, json_reader.next_number_as_str()?);
    }

    json_reader.end_array()?;
    json_reader.consume_trailing_whitespace()?;

    Ok(())
}

#[test]
fn next_number_as_string() -> TestResult {
    let mut json_reader =
        new_reader("[0, -0, -1, -9, 123, 56.0030, -0.1, 1.01e+03, -4.50E-40]");

    json_reader.begin_array()?;

    let expected = ["0",
    "-0",
    "-1",
    "-9",
    "123",
    "56.0030",
    "-0.1",
    "1.01e+03",
    "-4.50E-40",];
    for expected in expected {
        assert_eq!(expected, json_reader.next_number_as_string()?);
    }

    json_reader.end_array()?;
    json_reader.consume_trailing_whitespace()?;

    // Also include large number to make sure value buffer is correctly reused / replaced
    let large_number = "123".repeat(READER_BUF_SIZE);
    let json = format!("[1, {large_number}, {large_number}, 2, {large_number}, 3]");
    let mut json_reader = Driver::new_custom(
        json.as_bytes(),
        ReaderSettings {
            restrict_number_values: false,
            ..Default::default()
        },
    );

    json_reader.begin_array()?;

    let expected = [
            "1",
            &large_number,
            &large_number,
            "2",
            &large_number,
            "3",
        ];

    for expected in expected {
        assert_eq!(expected, json_reader.next_number_as_string()?);
    }

    json_reader.end_array()?;
    json_reader.consume_trailing_whitespace()?;

    Ok(())
}

#[test]
fn numbers() -> TestResult {
    let mut json_reader = new_reader("[123, 45, 0.5, 0.7]");

    json_reader.begin_array()?;
    assert_eq!(123, json_reader.next_number::<i32>()?.unwrap());
    assert_eq!(45_u32, json_reader.next_number::<u32>()?.unwrap());
    assert_eq!(0.5, json_reader.next_number::<f32>()?.unwrap());
    // Cannot parse floating point number as i32
    assert!(json_reader.next_number::<i32>()?.is_err());

    Ok(())
}

#[test]
fn numbers_invalid() -> TestResult {
    let invalid_numbers = [
        "-", "--1", "-.1", "00", "01", "1.", "1.-1", "1.e1", "1e", "1ee1", "1eE1", "1e-",
        "1e+", "1e--1", "1e+-1", "1e.1", "1e1.1", "1e1-1", "1e1e1",
    ];
    for invalid_number in invalid_numbers {
        let mut json_reader = new_reader(invalid_number);
        assert_parse_error(
            Some(invalid_number),
            json_reader.next_number_as_string(),
            SyntaxErrorKind::MalformedNumber,
            0,
        );
    }

    let mut json_reader = new_reader("+1");
    assert_parse_error(
        None,
        json_reader.next_number_as_string(),
        SyntaxErrorKind::MalformedJson,
        0,
    );

    let mut json_reader = new_reader("123a");
    assert_parse_error(
        None,
        json_reader.next_number_as_string(),
        SyntaxErrorKind::TrailingDataAfterNumber,
        3,
    );

    Ok(())
}

#[test]
fn numbers_restriction() -> TestResult {
    let numbers = vec![
        "1e99".to_owned(),
        "1e+99".to_owned(),
        "1e-99".to_owned(),
        // Leading 0s should be ignored
        "1e000000".to_owned(),
        "1e0000001".to_owned(),
        "1e+0000001".to_owned(),
        "1e-0000001".to_owned(),
        "1".repeat(100),
    ];
    for number in numbers {
        let mut json_reader = new_reader(&number);
        assert_eq!(number, json_reader.next_number_as_string()?);
        json_reader.consume_trailing_whitespace()?;
    }

    fn assert_unsupported_number(number_json: &str) {
        let mut json_reader = new_reader(number_json);
        match json_reader.next_number_as_string() {
            Err(ReaderError::UnsupportedNumberValue { number, location }) => {
                assert_eq!(number_json, number);
                assert_eq!(
                    JsonReaderPosition {
                        path: Some(Vec::new()),
                        line_pos: Some(LinePosition { line: 0, column: 0 }),
                        data_pos: Some(0),
                    },
                    location
                );
            }
            r => panic!("Unexpected result: {r:?}"),
        }

        let mut json_reader = new_reader(number_json);
        match json_reader.next_number::<f64>() {
            Err(ReaderError::UnsupportedNumberValue { number, location }) => {
                assert_eq!(number_json, number);
                assert_eq!(
                    JsonReaderPosition {
                        path: Some(Vec::new()),
                        line_pos: Some(LinePosition { line: 0, column: 0 }),
                        data_pos: Some(0),
                    },
                    location
                );
            }
            r => panic!("Unexpected result: {r:?}"),
        }
    }

    assert_unsupported_number("1e100");
    assert_unsupported_number("1e+100");
    assert_unsupported_number("1e-100");
    assert_unsupported_number("1e000100");
    assert_unsupported_number(&"1".repeat(101));

    // Skipping should not enforce number restriction
    let mut json_reader = new_reader("1e100");
    json_reader.skip_value()?;
    json_reader.consume_trailing_whitespace()?;

    let numbers = vec![
        "1e100".to_owned(),
        "1e+100".to_owned(),
        "1e-100".to_owned(),
        "1".repeat(101),
    ];
    for number in numbers {
        let mut json_reader = Driver::new_custom(
            number.as_bytes(),
            ReaderSettings {
                restrict_number_values: false,
                ..Default::default()
            },
        );
        assert_eq!(number, json_reader.next_number_as_string()?);
    }

    Ok(())
}

#[test]
fn next_str() -> TestResult {
    fn pair(json_string: &str, expected_value: &str) -> (String, String) {
        (json_string.to_owned(), expected_value.to_owned())
    }

    let test_data = [
        pair("", ""),
        pair("a", "a"),
        pair("\\n", "\n"),
        pair("\\na", "\na"),
        pair("\\n\\na", "\n\na"),
        pair("a\\n", "a\n"),
        pair("a\\na\\n\\na", "a\na\n\na"),
        pair("a\u{10FFFF}", "a\u{10FFFF}"),
        ("a".repeat(READER_BUF_SIZE - 2), "a".repeat(READER_BUF_SIZE - 2)),
        ("a".repeat(READER_BUF_SIZE - 1), "a".repeat(READER_BUF_SIZE - 1)),
        ("a".repeat(READER_BUF_SIZE), "a".repeat(READER_BUF_SIZE)),
        ("a".repeat(READER_BUF_SIZE + 1), "a".repeat(READER_BUF_SIZE + 1)),
        ("a".repeat(READER_BUF_SIZE - 1) + "\\n", "a".repeat(READER_BUF_SIZE - 1) + "\n"),
        ("a".repeat(READER_BUF_SIZE) + "\\na", "a".repeat(READER_BUF_SIZE) + "\na"),
    ];
    for (json_string, expected_value) in test_data {
        let json_value = format!("\"{json_string}\"");
        let mut json_reader = new_reader(&json_value);
        assert_eq!(expected_value, json_reader.next_str()?);
        json_reader.consume_trailing_whitespace()?;
    }

    // Also test reading array of multiple string values, including ones which cannot
    // be read directly from reader buf array, to verify that value buffer is correctly
    // reused / replaced
    let large_json_string = "abc".repeat(READER_BUF_SIZE);
    let json_value = format!("[\"a\", \"{large_json_string}\", \"\\n\", \"{large_json_string}\", \"a\", \"\\n\"]");
    let mut json_reader = new_reader(&json_value);
    json_reader.begin_array()?;

    assert_eq!("a", json_reader.next_str()?);
    assert_eq!(large_json_string, json_reader.next_str()?);
    assert_eq!("\n", json_reader.next_str()?);
    assert_eq!(large_json_string, json_reader.next_str()?);
    assert_eq!("a", json_reader.next_str()?);
    assert_eq!("\n", json_reader.next_str()?);

    json_reader.end_array()?;
    json_reader.consume_trailing_whitespace()?;

    Ok(())
}

#[test]
fn next_string() -> TestResult {
    fn pair(json_string: &str, expected_value: &str) -> (String, String) {
        (json_string.to_owned(), expected_value.to_owned())
    }

    let test_data = [
        pair("", ""),
        pair("a", "a"),
        pair("\\n", "\n"),
        pair("\\na", "\na"),
        pair("\\n\\na", "\n\na"),
        pair("a\\n", "a\n"),
        pair("a\\na\\n\\na", "a\na\n\na"),
        pair("a\u{10FFFF}", "a\u{10FFFF}"),
        ("a".repeat(READER_BUF_SIZE - 2), "a".repeat(READER_BUF_SIZE - 2)),
        ("a".repeat(READER_BUF_SIZE - 1), "a".repeat(READER_BUF_SIZE - 1)),
        ("a".repeat(READER_BUF_SIZE), "a".repeat(READER_BUF_SIZE)),
        ("a".repeat(READER_BUF_SIZE + 1), "a".repeat(READER_BUF_SIZE + 1)),
        ("a".repeat(READER_BUF_SIZE - 1) + "\\n", "a".repeat(READER_BUF_SIZE - 1) + "\n"),
        ("a".repeat(READER_BUF_SIZE) + "\\na", "a".repeat(READER_BUF_SIZE) + "\na"),
    ];
    for (json_string, expected_value) in test_data {
        let json_value = format!("\"{json_string}\"");
        let mut json_reader = new_reader(&json_value);
        assert_eq!(expected_value, json_reader.next_string()?);
        json_reader.consume_trailing_whitespace()?;
    }

    // Also test reading array of multiple string values, including ones which cannot
    // be read directly from reader buf array, to verify that value buffer is correctly
    // reused / replaced
    let large_json_string = "abc".repeat(READER_BUF_SIZE);
    let json_value = format!("[\"a\", \"{large_json_string}\", \"\\n\", \"{large_json_string}\", \"a\", \"\\n\"]");
    let mut json_reader = new_reader(&json_value);
    json_reader.begin_array()?;

    assert_eq!("a", json_reader.next_string()?);
    assert_eq!(large_json_string, json_reader.next_string()?);
    assert_eq!("\n", json_reader.next_string()?);
    assert_eq!(large_json_string, json_reader.next_string()?);
    assert_eq!("a", json_reader.next_string()?);
    assert_eq!("\n", json_reader.next_string()?);

    json_reader.end_array()?;
    json_reader.consume_trailing_whitespace()?;

    Ok(())
}

#[test]
fn strings() -> TestResult {
    let json = r#"["", "a b", "a\"b", "a\\\\\"b", "a\\", "\"\\\/\b\f\n\r\t\u0000\u0080\u0800\u12345\uD852\uDF62 \u1234\u5678\u90AB\uCDEF\uabcd\uefEF","#.to_owned() + "\"\u{007F}\u{0080}\u{07FF}\u{0800}\u{FFFF}\u{10000}\u{10FFFF}\",\"\u{2028}\u{2029}\"]";
    let mut json_reader = new_reader(&json);
    json_reader.begin_array()?;

    assert_eq!("", json_reader.next_string()?);
    assert_eq!("a b", json_reader.next_string()?);
    assert_eq!("a\"b", json_reader.next_string()?);
    assert_eq!("a\\\\\"b", json_reader.next_string()?);
    assert_eq!("a\\", json_reader.next_string()?);
    assert_eq!(
        "\"\\/\u{0008}\u{000C}\n\r\t\u{0000}\u{0080}\u{0800}\u{1234}5\u{24B62} \u{1234}\u{5678}\u{90AB}\u{CDEF}\u{ABCD}\u{EFEF}",
        json_reader.next_string()?
    );
    // Tests code points with different UTF-8 encoding length
    assert_eq!(
        "\u{007F}\u{0080}\u{07FF}\u{0800}\u{FFFF}\u{10000}\u{10FFFF}",
        json_reader.next_string()?
    );
    // Line separator (U+2028) and paragraph separator (U+2029) are not allowed by JavaScript, but are allowed unescaped by JSON
    assert_eq!("\u{2028}\u{2029}", json_reader.next_string()?);

    json_reader.end_array()?;
    json_reader.consume_trailing_whitespace()?;

    Ok(())
}

#[test]
fn strings_invalid() {
    fn assert_invalid(json: &str, expected_kind: SyntaxErrorKind, expected_column: u64) {
        let mut json_reader = new_reader(json);
        assert_parse_error(
            Some(json),
            json_reader.next_string(),
            expected_kind,
            expected_column,
        );
    }

    // Missing closing double quote
    assert_invalid(r#"""#, SyntaxErrorKind::IncompleteDocument, 1);
    // Trailing backslash
    assert_invalid(r#""\"#, SyntaxErrorKind::MalformedEscapeSequence, 1);
    // Not escaped control characters
    assert_invalid(
        "\"\u{0000}\"",
        SyntaxErrorKind::NotEscapedControlCharacter,
        1,
    );
    assert_invalid(
        "\"\u{001F}\"",
        SyntaxErrorKind::NotEscapedControlCharacter,
        1,
    );
    assert_invalid("\"\n\"", SyntaxErrorKind::NotEscapedControlCharacter, 1);
    assert_invalid("\"\r\"", SyntaxErrorKind::NotEscapedControlCharacter, 1);

    // Unknown escape sequences
    assert_invalid(r#""\x12""#, SyntaxErrorKind::UnknownEscapeSequence, 1);
    assert_invalid(r#""\1234""#, SyntaxErrorKind::UnknownEscapeSequence, 1);
    assert_invalid(r#""\U1234""#, SyntaxErrorKind::UnknownEscapeSequence, 1);
    // Trying to escape LF
    assert_invalid("\"\\\n\"", SyntaxErrorKind::UnknownEscapeSequence, 1);

    // Malformed unicode escapes
    assert_invalid(r#""\u12"#, SyntaxErrorKind::MalformedEscapeSequence, 1);
    assert_invalid(r#""\u12""#, SyntaxErrorKind::MalformedEscapeSequence, 1);
    assert_invalid(r#""\uDEFG""#, SyntaxErrorKind::MalformedEscapeSequence, 1);
    assert_invalid(r#""\uu1234""#, SyntaxErrorKind::MalformedEscapeSequence, 1);
    // Switched surrogate pairs
    assert_invalid(
        r#""\uDC00\uD800""#,
        SyntaxErrorKind::UnpairedSurrogatePairEscapeSequence,
        1,
    );
    // Incomplete surrogate pair
    assert_invalid(
        r#""\uD800"#, // incomplete string value which ends with unpaired surrogate pair
        SyntaxErrorKind::UnpairedSurrogatePairEscapeSequence,
        1,
    );
    assert_invalid(
        r#""\uD800""#, // string value ends with unpaired surrogate pair
        SyntaxErrorKind::UnpairedSurrogatePairEscapeSequence,
        1,
    );

    fn assert_invalid_utf8(string_content: &[u8]) {
        let mut bytes = Vec::new();
        bytes.push(b'"');
        bytes.extend(string_content);
        bytes.push(b'"');
        let mut json_reader = Driver::new(bytes.as_slice());
        match json_reader.next_string() {
            Err(ReaderError::IoError { error, location }) => {
                assert_eq!(IoError::InvalidUtf8, error);
                assert_eq!("invalid UTF-8 data", error.message());
                assert_eq!(Some(Vec::new()), location.path);
                assert_eq!(0, location.line_pos.unwrap().line);
            }
            result => panic!("Unexpected result for '{string_content:?}': {result:?}"),
        }
    }

    // High surrogate followed by low surrogate in (invalid) UTF-8 encoding
    let mut json_reader = Driver::new(b"\"\\uD800\xED\xB0\x80\"" as &[u8]);
    assert_parse_error(
        None,
        json_reader.next_string(),
        SyntaxErrorKind::UnpairedSurrogatePairEscapeSequence,
        1,
    );

    // Malformed UTF-8; high surrogate U+D800 encoded in UTF-8 (= invalid)
    assert_invalid_utf8(b"\xED\xA0\x80");

    // Malformed UTF-8; low surrogate u+DFFF encoded in UTF-8 (= invalid)
    assert_invalid_utf8(b"\xED\xBF\xBF");

    // Overlong encoding for two bytes
    assert_invalid_utf8(b"\xC1\xBF");

    // Overlong encoding for three bytes
    assert_invalid_utf8(b"\xE0\x9F\xBF");

    // Overlong encoding for four bytes
    assert_invalid_utf8(b"\xF0\x8F\xBF\xBF");

    // Greater than max code point U+10FFFF
    assert_invalid_utf8(b"\xF4\x90\x80\x80");

    // Malformed single byte
    assert_invalid_utf8(b"\x80");

    // Malformed two bytes
    assert_invalid_utf8(b"\xC2\x00");

    // Incomplete two bytes
    assert_invalid_utf8(b"\xC2");

    // Malformed three bytes
    assert_invalid_utf8(b"\xE0\xA0\x00");

    // Incomplete three bytes
    assert_invalid_utf8(b"\xE0\xA0");

    // Malformed four bytes
    assert_invalid_utf8(b"\xF0\x90\x80\x00");

    // Incomplete four bytes
    assert_invalid_utf8(b"\xF0\x90\x80");
}

#[test]
fn string_reader() -> TestResult {
    let mut json_reader = new_reader("[\"test\u{10FFFF}\", true, \"ab\"]");
    json_reader.begin_array()?;

    let mut reader = json_reader.next_string_reader()?;

    let mut buf = [0; 1];
    assert_eq!(1, reader.read(&mut buf)?);
    assert_eq!(b't', buf[0]);

    assert_eq!(1, reader.read(&mut buf)?);
    assert_eq!(b'e', buf[0]);

    assert_eq!(1, reader.read(&mut buf)?);
    assert_eq!(b's', buf[0]);

    assert_eq!(1, reader.read(&mut buf)?);
    assert_eq!(b't', buf[0]);

    assert_eq!(1, reader.read(&mut buf)?);
    assert_eq!(b'\xF4', buf[0]);

    assert_eq!(1, reader.read(&mut buf)?);
    assert_eq!(b'\x8F', buf[0]);

    assert_eq!(1, reader.read(&mut buf)?);
    assert_eq!(b'\xBF', buf[0]);

    assert_eq!(1, reader.read(&mut buf)?);
    assert_eq!(b'\xBF', buf[0]);

    assert_eq!(0, reader.read(&mut buf)?);
    // Calling `read` again at end of string should have no effect
    assert_eq!(0, reader.read(&mut buf)?);
    drop(reader);

    assert_eq!(true, json_reader.next_bool()?);

    let mut reader = json_reader.next_string_reader()?;
    assert_eq!(1, reader.read(&mut buf)?);
    assert_eq!(b'a', buf[0]);

    assert_eq!(1, reader.read(&mut buf)?);
    assert_eq!(b'b', buf[0]);

    assert_eq!(0, reader.read(&mut buf)?);
    drop(reader);

    json_reader.end_array()?;
    json_reader.consume_trailing_whitespace()?;

    Ok(())
}

#[test]
fn string_reader_syntax_error() -> TestResult {
    let mut json_reader = new_reader("\"\\12\"");
    let mut reader = json_reader.next_string_reader()?;

    match reader.read_to_string(&mut String::new()) {
        Ok(_) => panic!("Should have failed"),
        Err(e) => {
            assert_eq!(
                "JSON syntax error UnknownEscapeSequence at path '$', line 0, column 1 (data pos 1)",
                e.text()
            );
            match e {
                StringReadError::Reader(ReaderError::SyntaxError(cause)) => assert_eq!(
                    JsonSyntaxError {
                        kind: SyntaxErrorKind::UnknownEscapeSequence,
                        location: JsonReaderPosition {
                            path: Some(Vec::new()),
                            line_pos: Some(LinePosition { line: 0, column: 1 }),
                            data_pos: Some(1),
                        },
                    },
                    cause
                ),
                other => panic!("Unexpected error: {other:?}"),
            }
        }
    }
    Ok(())
}

#[test]
fn string_reader_utf8_error() -> TestResult {
    let mut json_reader = Driver::new(b"\"\x80\"" as &[u8]);
    let mut reader = json_reader.next_string_reader()?;

    match reader.read_to_string(&mut String::new()) {
        Ok(_) => panic!("Should have failed"),
        Err(e) => {
            assert_eq!(
                "IO error 'invalid UTF-8 data' at (roughly) path '$', line 0, column 1 (data pos 1)",
                e.text()
            );
        }
    }
    Ok(())
}

#[test]
fn string_reader_repeats_error() -> TestResult {
    struct BlockingReader<'a> {
        remaining_data: &'a [u8],
    }
    /// Custom implementation which returns `WouldBlock` on end of data
    impl Read for BlockingReader<'_> {
        fn read(&mut self, buf: &mut [u8]) -> std::io::Result<usize> {
            if buf.is_empty() {
                return Ok(0);
            }
            if self.remaining_data.is_empty() {
                return Err(std::io::Error::new(ErrorKind::WouldBlock, "custom message"));
            }

            let copy_count = buf.len().min(self.remaining_data.len());
            buf[..copy_count].copy_from_slice(&self.remaining_data[..copy_count]);
            self.remaining_data = &self.remaining_data[copy_count..];
            Ok(copy_count)
        }
    }

    let mut json_reader = Driver::new(BlockingReader {
        remaining_data: "\"test".as_bytes(),
    });
    let mut reader = json_reader.next_string_reader()?;

    let expected_original_message =
        "IO error 'custom message' at (roughly) path '$', line 0, column 5 (data pos 5)";

    let mut buf = [0_u8; 10];
    match reader.read(&mut buf) {
        Ok(_) => panic!("Should have failed"),
        Err(e) => {
            assert!(matches!(e, StringReadError::Source { .. }));
            assert_eq!(expected_original_message, e.text());
        }
    }

    // Subsequent read attempts should fail with same error, but use custom message
    match reader.read(&mut buf) {
        Ok(_) => panic!("Should have failed"),
        Err(e) => {
            assert!(matches!(e, StringReadError::Previous(_)));
            assert_eq!(
                format!(
                    "previous error '{}': {}",
                    ErrorKind::Other,
                    expected_original_message
                ),
                e.text()
            );
        }
    }

    // Should still consider string value reader as active because value was not
    // successfully consumed
    drop(reader);
    assert!(json_reader.reader.is_string_value_reader_active());

    Ok(())
}

#[test]
#[should_panic(
    expected = "Incorrect reader usage: Cannot peek when string value reader is active"
)]
fn string_reader_incomplete() {
    let mut json_reader = new_reader("[\"ab\", true]");
    json_reader.begin_array().unwrap();

    let mut reader = json_reader.next_string_reader().unwrap();

    let mut buf = [0; 1];
    assert_eq!(1, reader.read(&mut buf).unwrap());
    drop(reader);

    json_reader.next_bool().unwrap();
}

/// Test string reading behavior for a reader which provides one byte at a time
#[test]
fn strings_single_byte_reader() -> TestResult {
    struct SingleByteReader {
        index: usize,
        bytes: &'static [u8],
    }
    impl Read for SingleByteReader {
        fn read(&mut self, buf: &mut [u8]) -> std::io::Result<usize> {
            if buf.is_empty() || self.index >= self.bytes.len() {
                return Ok(0);
            }
            buf[0] = self.bytes[self.index];
            self.index += 1;
            Ok(1)
        }
    }

    let reader = SingleByteReader {
        index: 0,
        bytes: "{\"name1 \u{10FFFF}\": \"value1 \u{10FFFF}\", \"name2 \u{10FFFF}\": \"value2 \u{10FFFF}\", \"name3 \u{10FFFF}\": \"value3 \u{10FFFF}\"}".as_bytes(),
    };
    let mut json_reader = Driver::new(reader);
    json_reader.begin_object()?;

    assert_eq!("name1 \u{10FFFF}", json_reader.next_name()?);
    assert_eq!("value1 \u{10FFFF}", json_reader.next_str()?);

    assert_eq!("name2 \u{10FFFF}", json_reader.next_name_owned()?);
    assert_eq!("value2 \u{10FFFF}", json_reader.next_string()?);

    assert_eq!("name3 \u{10FFFF}", json_reader.next_name()?);
    let mut string_value_reader = json_reader.next_string_reader()?;
    let mut string = String::new();
    string_value_reader.read_to_string(&mut string)?;
    drop(string_value_reader);
    assert_eq!("value3 \u{10FFFF}", string);

    json_reader.end_object()?;
    json_reader.consume_trailing_whitespace()?;
    Ok(())
}

fn new_reader_with_trailing_comma(json: &str) -> Driver<&[u8]> {
    Driver::new_custom(
        json.as_bytes(),
        ReaderSettings {
            allow_trailing_comma: true,
            ..Default::default()
        },
    )
}

#[test]
fn array_trailing_comma() -> TestResult {
    let mut json_reader = new_reader("[,]");
    json_reader.begin_array()?;
    assert_parse_error_with_path(
        None,
        json_reader.peek(),
        SyntaxErrorKind::UnexpectedComma,
        &[item(0)],
        1,
    );

    let mut json_reader = new_reader("[1,]");
    json_reader.begin_array()?;
    assert_eq!("1", json_reader.next_number_as_string()?);
    assert_parse_error_with_path(
        None,
        json_reader.peek(),
        SyntaxErrorKind::TrailingCommaNotEnabled,
        &[item(1)],
        2,
    );

    let mut json_reader = new_reader("[1,\n]");
    json_reader.begin_array()?;
    assert_eq!("1", json_reader.next_number_as_string()?);
    assert_parse_error_with_path(
        None,
        json_reader.peek(),
        SyntaxErrorKind::TrailingCommaNotEnabled,
        &[item(1)],
        2,
    );

    let mut json_reader = new_reader("[1,]");
    json_reader.begin_array()?;
    assert_eq!("1", json_reader.next_number_as_string()?);
    // Arguably `has_next()` could also return true and only next value consuming call would fail,
    // but in that case `current_position()` method contract might be violated
    assert_parse_error_with_path(
        None,
        json_reader.has_next(),
        SyntaxErrorKind::TrailingCommaNotEnabled,
        &[item(1)],
        2,
    );

    let mut json_reader = new_reader_with_trailing_comma("[1,]");
    json_reader.begin_array()?;
    assert_eq!("1", json_reader.next_number_as_string()?);
    assert_eq!(false, json_reader.has_next()?);
    json_reader.end_array()?;
    json_reader.consume_trailing_whitespace()?;

    let mut json_reader = new_reader_with_trailing_comma("[,]");
    json_reader.begin_array()?;
    assert_parse_error_with_path(
        None,
        json_reader.peek(),
        SyntaxErrorKind::UnexpectedComma,
        &[item(0)],
        1,
    );

    let mut json_reader = new_reader_with_trailing_comma("[1,,]");
    json_reader.begin_array()?;
    assert_eq!("1", json_reader.next_number_as_string()?);
    assert_parse_error_with_path(
        None,
        json_reader.peek(),
        SyntaxErrorKind::UnexpectedComma,
        &[item(1)],
        3,
    );

    let mut json_reader = Driver::new_custom(
        // `,` is not allowed as separator between multiple top-level values
        "1, 2".as_bytes(),
        ReaderSettings {
            allow_trailing_comma: true,
            allow_multiple_top_level: true,
            ..Default::default()
        },
    );
    assert_eq!("1", json_reader.next_number_as_string()?);
    assert_parse_error_with_path(
        None,
        json_reader.peek(),
        SyntaxErrorKind::UnexpectedComma,
        &[],
        1,
    );

    Ok(())
}

#[test]
fn array_malformed() -> TestResult {
    let mut json_reader = new_reader("[1 2]");
    json_reader.begin_array()?;
    assert_eq!("1", json_reader.next_number_as_string()?);
    assert_parse_error_with_path(
        None,
        json_reader.has_next(),
        SyntaxErrorKind::MissingComma,
        &[item(1)],
        3,
    );

    let mut json_reader = new_reader("[1: 2]");
    json_reader.begin_array()?;
    assert_eq!("1", json_reader.next_number_as_string()?);
    assert_parse_error_with_path(
        None,
        json_reader.has_next(),
        SyntaxErrorKind::UnexpectedColon,
        &[item(1)],
        2,
    );

    let mut json_reader = new_reader(r#"["a": 1]"#);
    json_reader.begin_array()?;
    assert_eq!("a", json_reader.next_string()?);
    assert_parse_error_with_path(
        None,
        json_reader.has_next(),
        SyntaxErrorKind::UnexpectedColon,
        &[item(1)],
        4,
    );

    let mut json_reader = new_reader("[1}");
    json_reader.begin_array()?;
    assert_eq!("1", json_reader.next_number_as_string()?);
    assert_parse_error_with_path(
        None,
        json_reader.has_next(),
        SyntaxErrorKind::UnexpectedClosingBracket,
        &[item(1)],
        2,
    );
    assert_parse_error_with_path(
        None,
        json_reader.end_array(),
        SyntaxErrorKind::UnexpectedClosingBracket,
        &[item(1)],
        2,
    );

    Ok(())
}

#[test]
#[should_panic(expected = "Incorrect reader usage: Cannot end object when not inside object")]
fn array_end_as_object() {
    let mut json_reader = new_reader("[}");
    json_reader.begin_array().unwrap();

    json_reader.end_object().unwrap();
}

#[test]
fn object_trailing_comma() -> TestResult {
    let mut json_reader = new_reader("{,}");
    json_reader.begin_object()?;
    assert_parse_error_with_path(
        None,
        json_reader.has_next(),
        SyntaxErrorKind::UnexpectedComma,
        &[member("<?>")],
        1,
    );

    let mut json_reader = new_reader("{\"a\":1,}");
    json_reader.begin_object()?;
    assert_eq!("a", json_reader.next_name_owned()?);
    assert_eq!("1", json_reader.next_number_as_string()?);
    // Arguably `has_next()` could also return true and only next name consuming call would fail,
    // but in that case `current_position()` method contract might be violated
    assert_parse_error_with_path(
        None,
        json_reader.has_next(),
        SyntaxErrorKind::TrailingCommaNotEnabled,
        &[member("a")],
        6,
    );

    let mut json_reader = new_reader_with_trailing_comma("{\"a\":1,}");
    json_reader.begin_object()?;
    assert_eq!("a", json_reader.next_name_owned()?);
    assert_eq!("1", json_reader.next_number_as_string()?);
    assert_eq!(false, json_reader.has_next()?);
    json_reader.end_object()?;
    json_reader.consume_trailing_whitespace()?;

    let mut json_reader = new_reader_with_trailing_comma("{,}");
    json_reader.begin_object()?;
    assert_parse_error_with_path(
        None,
        json_reader.has_next(),
        SyntaxErrorKind::UnexpectedComma,
        &[member("<?>")],
        1,
    );

    let mut json_reader = new_reader_with_trailing_comma("{\"a\":1,,}");
    json_reader.begin_object()?;
    assert_eq!("a", json_reader.next_name_owned()?);
    assert_eq!("1", json_reader.next_number_as_string()?);
    assert_parse_error_with_path(
        None,
        json_reader.has_next(),
        SyntaxErrorKind::ExpectingMemberNameOrObjectEnd,
        &[member("a")],
        7,
    );

    Ok(())
}

#[test]
fn next_name() -> TestResult {
    fn pair(json_name: &str, expected_name: &str) -> (String, String) {
        (json_name.to_owned(), expected_name.to_owned())
    }

    let test_data = [
        pair("", ""),
        pair("a", "a"),
        pair("\\n", "\n"),
        pair("\\na", "\na"),
        pair("a\\n", "a\n"),
        pair("a\\na\\n\\na", "a\na\n\na"),
        pair("a\u{10FFFF}", "a\u{10FFFF}"),
        ("a".repeat(READER_BUF_SIZE - 10), "a".repeat(READER_BUF_SIZE - 10)),
        ("a".repeat(READER_BUF_SIZE) + "\\n", "a".repeat(READER_BUF_SIZE) + "\n"),
        ("a".repeat(READER_BUF_SIZE) + "\\na", "a".repeat(READER_BUF_SIZE) + "\na"),
    ];
    for (json_name, expected_name) in test_data {
        let json_value = "{\"".to_owned() + &json_name + "\": 1}";
        let mut json_reader = new_reader(&json_value);

        json_reader.begin_object()?;
        assert_eq!(expected_name, json_reader.next_name()?);
        assert_eq!("1", json_reader.next_number_as_string()?);
        json_reader.end_object()?;

        json_reader.consume_trailing_whitespace()?;
    }

    // Also test reading objects with multiple names, including ones which cannot
    // be read directly from reader buf array, to verify that value buffer is correctly
    // reused / replaced

    let large_name = "abc".repeat(READER_BUF_SIZE);
    let json = "{\"a\": 1, \"".to_owned() + &large_name + "\": 2, \"\\n\": 3, \"b\": 4, \"" + &large_name + "\": {\"c\": {\"\\n\": 5}}}";

    let mut json_reader = new_reader(&json);

    json_reader.begin_object()?;
    assert_eq!("a", json_reader.next_name()?);
    assert_eq!("1", json_reader.next_number_as_string()?);

    assert_eq!(large_name, json_reader.next_name()?);
    assert_eq!("2", json_reader.next_number_as_string()?);

    assert_eq!("\n", json_reader.next_name()?);
    assert_eq!("3", json_reader.next_number_as_string()?);

    assert_eq!("b", json_reader.next_name()?);
    assert_eq!("4", json_reader.next_number_as_string()?);

    assert_eq!(large_name, json_reader.next_name()?);
    json_reader.begin_object()?;
    assert_eq!("c", json_reader.next_name()?);
    json_reader.begin_object()?;
    assert_eq!("\n", json_reader.next_name()?);
    assert_eq!("5", json_reader.next_number_as_string()?);
    let expected_path = vec![
        JsonPathPiece::ObjectMember(large_name),
        JsonPathPiece::ObjectMember("c".to_owned()),
        JsonPathPiece::ObjectMember("\n".to_owned()),
    ];
    assert_eq!(
        Some(expected_path),
        json_reader.current_position(true).path
    );
    json_reader.end_object()?;
    json_reader.end_object()?;

    json_reader.end_object()?;

    json_reader.consume_trailing_whitespace()?;

    Ok(())
}

#[test]
fn next_name_owned() -> TestResult {
    fn pair(json_name: &str, expected_name: &str) -> (String, String) {
        (json_name.to_owned(), expected_name.to_owned())
    }

    let test_data = [
        pair("", ""),
        pair("a", "a"),
        pair("\\n", "\n"),
        pair("\\na", "\na"),
        pair("a\\n", "a\n"),
        pair("a\\na\\n\\na", "a\na\n\na"),
        pair("a\u{10FFFF}", "a\u{10FFFF}"),
        ("a".repeat(READER_BUF_SIZE - 10), "a".repeat(READER_BUF_SIZE - 10)),
        ("a".repeat(READER_BUF_SIZE) + "\\n", "a".repeat(READER_BUF_SIZE) + "\n"),
        ("a".repeat(READER_BUF_SIZE) + "\\na", "a".repeat(READER_BUF_SIZE) + "\na"),
    ];
    for (json_name, expected_name) in test_data {
        let json_value = "{\"".to_owned() + &json_name + "\": 1}";
        let mut json_reader = new_reader(&json_value);

        json_reader.begin_object()?;
        assert_eq!(expected_name, json_reader.next_name_owned()?);
        assert_eq!("1", json_reader.next_number_as_string()?);
        json_reader.end_object()?;

        json_reader.consume_trailing_whitespace()?;
    }

    // Also test reading objects with multiple names, including ones which cannot
    // be read directly from reader buf array, to verify that value buffer is correctly
    // reused / replaced

    let large_name = "abc".repeat(READER_BUF_SIZE);
    let json = "{\"a\": 1, \"".to_owned() + &large_name + "\": 2, \"\\n\": 3, \"b\": 4, \"" + &large_name + "\": {\"c\": {\"\\n\": 5}}}";

    let mut json_reader = new_reader(&json);

    json_reader.begin_object()?;
    assert_eq!("a", json_reader.next_name_owned()?);
    assert_eq!("1", json_reader.next_number_as_string()?);

    assert_eq!(large_name, json_reader.next_name_owned()?);
    assert_eq!("2", json_reader.next_number_as_string()?);

    assert_eq!("\n", json_reader.next_name_owned()?);
    assert_eq!("3", json_reader.next_number_as_string()?);

    assert_eq!("b", json_reader.next_name_owned()?);
    assert_eq!("4", json_reader.next_number_as_string()?);

    assert_eq!(large_name, json_reader.next_name_owned()?);
    json_reader.begin_object()?;
    assert_eq!("c", json_reader.next_name_owned()?);
    json_reader.begin_object()?;
    assert_eq!("\n", json_reader.next_name_owned()?);
    assert_eq!("5", json_reader.next_number_as_string()?);
    let expected_path = vec![
        JsonPathPiece::ObjectMember(large_name),
        JsonPathPiece::ObjectMember("c".to_owned()),
        JsonPathPiece::ObjectMember("\n".to_owned()),
    ];
    assert_eq!(
        Some(expected_path),
        json_reader.current_position(true).path
    );
    json_reader.end_object()?;
    json_reader.end_object()?;

    json_reader.end_object()?;

    json_reader.consume_trailing_whitespace()?;

    Ok(())
}

#[test]
fn object_member_names() -> TestResult {
    let mut json_reader = new_reader(r#"{"": 1, "a": 2, "": 3, "a": 4}"#);
    json_reader.begin_object()?;

    assert_eq!("", json_reader.next_name_owned()?);
    assert_eq!("1", json_reader.next_number_as_string()?);

    assert_eq!("a", json_reader.next_name_owned()?);
    assert_eq!("2", json_reader.next_number_as_string()?);

    assert_eq!("", json_reader.next_name_owned()?);
    assert_eq!("3", json_reader.next_number_as_string()?);

    assert_eq!("a", json_reader.next_name_owned()?);
    assert_eq!("4", json_reader.next_number_as_string()?);

    json_reader.end_object()?;
    json_reader.consume_trailing_whitespace()?;

    Ok(())
}

#[test]
fn object_malformed() -> TestResult {
    let mut json_reader = new_reader("{true: 1}");
    json_reader.begin_object()?;
    assert_parse_error_with_path(
        None,
        json_reader.has_next(),
        SyntaxErrorKind::ExpectingMemberNameOrObjectEnd,
        &[member("<?>")],
        1,
    );
    assert_parse_error_with_path(
        None,
        json_reader.next_name_owned(),
        SyntaxErrorKind::ExpectingMemberNameOrObjectEnd,
        &[member("<?>")],
        1,
    );

    let mut json_reader = new_reader("{test: 1}");
    json_reader.begin_object()?;
    assert_parse_error_with_path(
        None,
        json_reader.has_next(),
        SyntaxErrorKind::ExpectingMemberNameOrObjectEnd,
        &[member("<?>")],
        1,
    );
    assert_parse_error_with_path(
        None,
        json_reader.next_name_owned(),
        SyntaxErrorKind::ExpectingMemberNameOrObjectEnd,
        &[member("<?>")],
        1,
    );

    let mut json_reader = new_reader("{: 1}");
    json_reader.begin_object()?;
    assert_parse_error_with_path(
        None,
        json_reader.has_next(),
        SyntaxErrorKind::ExpectingMemberNameOrObjectEnd,
        &[member("<?>")],
        1,
    );
    assert_parse_error_with_path(
        None,
        json_reader.next_name_owned(),
        SyntaxErrorKind::ExpectingMemberNameOrObjectEnd,
        &[member("<?>")],
        1,
    );

    let mut json_reader = new_reader(r#"{"a":: 1}"#);
    json_reader.begin_object()?;
    assert!(json_reader.has_next()?);
    assert_eq!("a", json_reader.next_name_owned()?);
    assert_parse_error_with_path(
        None,
        json_reader.next_number_as_string(),
        SyntaxErrorKind::UnexpectedColon,
        &[member("a")],
        5,
    );

    let mut json_reader = new_reader(r#"{"a"}"#);
    json_reader.begin_object()?;
    assert!(json_reader.has_next()?);
    assert_eq!("a", json_reader.next_name_owned()?);
    assert_parse_error_with_path(
        None,
        json_reader.peek(),
        SyntaxErrorKind::MissingColon,
        &[member("a")],
        4,
    );

    let mut json_reader = new_reader(r#"{"a":}"#);
    json_reader.begin_object()?;
    assert!(json_reader.has_next()?);
    assert_eq!("a", json_reader.next_name_owned()?);
    assert_parse_error_with_path(
        None,
        json_reader.peek(),
        SyntaxErrorKind::UnexpectedClosingBracket,
        &[member("a")],
        5,
    );

    let mut json_reader = new_reader(r#"{"a" 1}"#);
    json_reader.begin_object()?;
    assert!(json_reader.has_next()?);
    assert_eq!("a", json_reader.next_name_owned()?);
    assert_parse_error_with_path(
        None,
        json_reader.peek(),
        SyntaxErrorKind::MissingColon,
        &[member("a")],
        5,
    );

    let mut json_reader = new_reader(r#"{"a", "b": 2}"#);
    json_reader.begin_object()?;
    assert!(json_reader.has_next()?);
    assert_eq!("a", json_reader.next_name_owned()?);
    assert_parse_error_with_path(
        None,
        json_reader.peek(),
        SyntaxErrorKind::MissingColon,
        &[member("a")],
        4,
    );

    let mut json_reader = new_reader(r#"{"a": 1 "b": 2}"#);
    json_reader.begin_object()?;
    assert!(json_reader.has_next()?);
    assert_eq!("a", json_reader.next_name_owned()?);
    assert_eq!("1", json_reader.next_number_as_string()?);
    assert_parse_error_with_path(
        None,
        json_reader.has_next(),
        SyntaxErrorKind::MissingComma,
        &[member("a")],
        8,
    );
    assert_parse_error_with_path(
        None,
        json_reader.next_name_owned(),
        SyntaxErrorKind::MissingComma,
        &[member("a")],
        8,
    );

    let mut json_reader = new_reader(r#"{"a": 1,, "b": 2}"#);
    json_reader.begin_object()?;
    assert!(json_reader.has_next()?);
    assert_eq!("a", json_reader.next_name_owned()?);
    assert_eq!("1", json_reader.next_number_as_string()?);
    assert_parse_error_with_path(
        None,
        json_reader.has_next(),
        SyntaxErrorKind::ExpectingMemberNameOrObjectEnd,
        &[member("a")],
        8,
    );
    let mut json_reader = new_reader(r#"{"a": 1: "b": 2}"#);
    json_reader.begin_object()?;
    assert!(json_reader.has_next()?);
    assert_eq!("a", json_reader.next_name_owned()?);
    assert_eq!("1", json_reader.next_number_as_string()?);
    assert_parse_error_with_path(
        None,
        json_reader.has_next(),
        SyntaxErrorKind::ExpectingMemberNameOrObjectEnd, // Maybe a bit misleading because it also expects comma?
        &[member("a")],
        7,
    );
    assert_parse_error_with_path(
        None,
        json_reader.next_name_owned(),
        SyntaxErrorKind::ExpectingMemberNameOrObjectEnd,
        &[member("a")],
        7,
    );

    let mut json_reader = new_reader("{]");
    json_reader.begin_object()?;
    assert_parse_error_with_path(
        None,
        json_reader.has_next(),
        SyntaxErrorKind::ExpectingMemberNameOrObjectEnd,
        &[member("<?>")],
        1,
    );
    assert_parse_error_with_path(
        None,
        json_reader.next_name_owned(),
        SyntaxErrorKind::ExpectingMemberNameOrObjectEnd,
        &[member("<?>")],
        1,
    );
    assert_parse_error_with_path(
        None,
        json_reader.end_object(),
        SyntaxErrorKind::ExpectingMemberNameOrObjectEnd,
        &[member("<?>")],
        1,
    );

    Ok(())
}

#[test]
#[should_panic(
    expected = "Incorrect reader usage: Cannot read value when expecting member name"
)]
fn object_name_as_bool() {
    let mut json_reader = new_reader("{true: 1}");
    json_reader.begin_object().unwrap();

    json_reader.next_bool().unwrap();
}

#[test]
#[should_panic(
    expected = "Incorrect reader usage: Cannot read value when expecting member name"
)]
fn object_name_as_string() {
    let mut json_reader = new_reader(r#"{"a": 1}"#);
    json_reader.begin_object().unwrap();

    json_reader.next_string().unwrap();
}

#[test]
#[should_panic(expected = "Incorrect reader usage: Cannot end array when not inside array")]
fn object_end_as_array() {
    let mut json_reader = new_reader("{]");
    json_reader.begin_object().unwrap();

    json_reader.end_array().unwrap();
}

#[test]
#[should_panic(
    expected = "Incorrect reader usage: Cannot end object when member value is expected"
)]
fn object_end_expecting_member_value() {
    let mut json_reader = new_reader(r#"{"a":1}"#);
    json_reader.begin_object().unwrap();
    assert_eq!("a", json_reader.next_name_owned().unwrap());

    json_reader.end_object().unwrap();
}

fn new_reader_with_limit(json: &str, limit: Option<u32>) -> Driver<&[u8]> {
    Driver::new_custom(
        json.as_bytes(),
        ReaderSettings {
            max_nesting_depth: limit,
            ..Default::default()
        },
    )
}

#[test]
fn nesting_limit() -> TestResult {
    fn assert_limit_reached<T: Debug>(
        result: Result<T, ReaderError>,
        expected_limit: u32,
        expected_column: u64,
        expected_path: &[JsonPathPiece],
    ) {
        match result {
            Err(ReaderError::MaxNestingDepthExceeded {
                max_nesting_depth,
                location,
            }) => {
                assert_eq!(expected_limit, max_nesting_depth);
                assert_eq!(
                    JsonReaderPosition {
                        path: Some(copy_path(expected_path)),
                        line_pos: Some(LinePosition {
                            line: 0,
                            column: expected_column
                        }),
                        // Assume input is ASCII only on single line; treat column as byte pos
                        data_pos: Some(expected_column),
                    },
                    location
                )
            }
            r => panic!("unexpected result: {r:?}"),
        }
    }

    // Test default limit
    let depth = DEFAULT_MAX_NESTING_DEPTH;
    let json = "[".repeat(depth as usize) + "true]";
    let mut json_reader = new_reader(&json);
    for _ in 0..depth {
        json_reader.begin_array()?;
    }
    assert_eq!(true, json_reader.next_bool()?);

    // Test default limit reached
    let depth = DEFAULT_MAX_NESTING_DEPTH + 1;
    let json = "[".repeat(depth as usize) + "true]";
    let mut json_reader = new_reader(&json);
    for _ in 0..DEFAULT_MAX_NESTING_DEPTH {
        json_reader.begin_array()?;
    }
    assert_limit_reached(
        json_reader.begin_array(),
        DEFAULT_MAX_NESTING_DEPTH,
        DEFAULT_MAX_NESTING_DEPTH as u64,
        &(0..DEFAULT_MAX_NESTING_DEPTH)
            .map(|_| item(0))
            .collect::<Vec<_>>(),
    );

    // Test no limit
    let depth = DEFAULT_MAX_NESTING_DEPTH + 10;
    let json = "[".repeat(depth as usize) + "true]";
    let mut json_reader = new_reader_with_limit(&json, None);
    for _ in 0..depth {
        json_reader.begin_array()?;
    }
    assert_eq!(true, json_reader.next_bool()?);

    let mut json_reader = new_reader_with_limit("[", Some(0));
    assert_limit_reached(json_reader.begin_array(), 0, 0, &[]);

    let mut json_reader = new_reader_with_limit("{", Some(0));
    assert_limit_reached(json_reader.begin_object(), 0, 0, &[]);

    // No limit error should returned on value type mismatch
    let mut json_reader = new_reader_with_limit("true", Some(0));
    match json_reader.begin_array() {
        Err(ReaderError::UnexpectedValueType {
            expected: ValueType::Array,
            actual: ValueType::Boolean,
            ..
        }) => {}
        r => panic!("unexpected result: {r:?}"),
    }
    assert_eq!(true, json_reader.next_bool()?);

    // Mixed array and object
    let mut json_reader = new_reader_with_limit("[{", Some(1));
    json_reader.begin_array()?;
    assert_limit_reached(json_reader.begin_object(), 1, 1, &[item(0)]);

    let mut json_reader = new_reader_with_limit("{\"a\": [", Some(1));
    json_reader.begin_object()?;
    assert_eq!("a", json_reader.next_name()?);
    assert_limit_reached(json_reader.begin_array(), 1, 6, &[member("a")]);

    // Verify that closing arrays and objects properly decreases the depth again
    let mut json_reader = new_reader_with_limit("[[{}], {\"a\": [{}]}", Some(3));
    json_reader.begin_array()?;
    json_reader.begin_array()?;
    json_reader.begin_object()?;
    json_reader.end_object()?;
    json_reader.end_array()?;
    json_reader.begin_object()?;
    assert_eq!("a", json_reader.next_name()?);
    json_reader.begin_array()?;
    assert_limit_reached(
        json_reader.begin_object(),
        3,
        14,
        &[item(1), member("a"), item(0)],
    );

    // Currently also affects skipping values
    let mut json_reader = new_reader_with_limit("[[", Some(1));
    assert_limit_reached(json_reader.skip_value(), 1, 1, &[item(0)]);

    // Currently also affects `seek_to`
    let mut json_reader = new_reader_with_limit("[[", Some(1));
    assert_limit_reached(
        json_reader.seek_to(&[item(0), item(0)]),
        1,
        1,
        &[item(0)],
    );

    Ok(())
}

#[test]
fn skip_array() -> TestResult {
    let mut json_reader = new_reader(
        r#"[true, 1, false, 2, null, 3, 123, 4, "ab", 5, [1, [2]], 6, {"a": [{"b":1}]}, 7]"#,
    );
    json_reader.begin_array()?;

    for i in 1..=7 {
        json_reader.skip_value()?;
        assert_eq!(i, json_reader.next_number::<u32>()?.unwrap());
    }

    assert_unexpected_structure(
        json_reader.skip_value(),
        UnexpectedStructureKind::FewerElementsThanExpected,
        &[item(14)],
        78,
    );

    json_reader.end_array()?;
    json_reader.consume_trailing_whitespace()?;

    Ok(())
}

/// Test behavior when skipping deeply nested JSON arrays; should not cause stack overflow
#[test]
fn skip_array_deeply_nested() -> TestResult {
    let nesting_depth = 20_000;
    let json = "[".repeat(nesting_depth) + "true" + "]".repeat(nesting_depth).as_str();
    let mut json_reader = new_reader_with_limit(&json, None);

    json_reader.skip_value()?;
    json_reader.consume_trailing_whitespace()?;

    // Also test with malformed JSON to verify that deeply nested value is actually reached
    let json = "[".repeat(nesting_depth) + "@" + "]".repeat(nesting_depth).as_str();
    let mut json_reader = new_reader_with_limit(&json, None);
    assert_parse_error_with_path(
        None,
        json_reader.skip_value(),
        SyntaxErrorKind::MalformedJson,
        &(0..nesting_depth).map(|_| item(0)).collect::<Vec<_>>(),
        nesting_depth as u64,
    );

    Ok(())
}

#[test]
fn skip_object() -> TestResult {
    let mut json_reader = new_reader(r#"{"a": {"a1": [1, []]}, "b": 2, "c": 3}"#);
    json_reader.begin_object()?;

    assert_eq!("a", json_reader.next_name_owned()?);
    json_reader.skip_value()?;

    assert_eq!("b", json_reader.next_name_owned()?);
    assert_eq!("2", json_reader.next_number_as_string()?);

    json_reader.skip_name()?;
    assert_eq!("3", json_reader.next_number_as_string()?);

    json_reader.end_object()?;
    json_reader.consume_trailing_whitespace()?;

    Ok(())
}

/// Test behavior when skipping deeply nested JSON objects; should not cause stack overflow
#[test]
fn skip_object_deeply_nested() -> TestResult {
    let nesting_depth = 20_000;
    let json_start = r#"{"a":"#;
    let json = json_start.repeat(nesting_depth) + "true" + "}".repeat(nesting_depth).as_str();
    let mut json_reader = new_reader_with_limit(&json, None);

    json_reader.skip_value()?;
    json_reader.consume_trailing_whitespace()?;

    // Also test with malformed JSON to verify that deeply nested value is actually reached
    let json = json_start.repeat(nesting_depth) + "@" + "}".repeat(nesting_depth).as_str();
    let mut json_reader = new_reader_with_limit(&json, None);
    assert_parse_error_with_path(
        None,
        json_reader.skip_value(),
        SyntaxErrorKind::MalformedJson,
        &(0..nesting_depth).map(|_| member("a")).collect::<Vec<_>>(),
        (json_start.len() * nesting_depth) as u64,
    );

    Ok(())
}

#[test]
fn skip_top_level() -> TestResult {
    for json_value in [
        "true",
        "false",
        "null",
        "12",
        "\"ab\"",
        r#"[true, [{"a":[2]}]]"#,
        r#"{"a":[[{"a1":2}]], "b":2}"#,
    ] {
        let mut json_reader = new_reader(json_value);
        json_reader.skip_value()?;
        json_reader.consume_trailing_whitespace()?;
    }

    let mut json_reader = new_reader(r#"[]"#);
    json_reader.begin_array()?;
    assert_unexpected_structure(
        json_reader.skip_value(),
        UnexpectedStructureKind::FewerElementsThanExpected,
        &[item(0)],
        1,
    );

    let mut json_reader = new_reader(r#""#);
    assert_parse_error(
        None,
        json_reader.skip_value(),
        SyntaxErrorKind::IncompleteDocument,
        0,
    );

    Ok(())
}

#[test]
#[should_panic(
    expected = "Incorrect reader usage: Cannot skip value when expecting member name"
)]
fn skip_value_expecting_name() {
    let mut json_reader = new_reader(r#"{"a": 1}"#);
    json_reader.begin_object().unwrap();

    json_reader.skip_value().unwrap();
}

#[test]
#[should_panic(
    expected = "Incorrect reader usage: Cannot consume member name when not expecting it"
)]
fn skip_name_expecting_value() {
    let mut json_reader = new_reader("\"a\"");

    json_reader.skip_name().unwrap();
}

#[test]
fn skip_to_top_level() -> TestResult {
    let mut json_reader = new_reader("null");
    // Should have no effect when not inside array or object
    json_reader.skip_to_top_level()?;
    json_reader.next_null()?;
    // Should have no effect when not inside array or object
    json_reader.skip_to_top_level()?;
    json_reader.skip_to_top_level()?;
    json_reader.consume_trailing_whitespace()?;

    let mut json_reader = new_reader(r#"[1, {"a": 2, "b": {"c": [3, 4]}, "b": 5}]"#);
    json_reader.seek_to(&[item(1), member("b"), member("c"), item(0)])?;
    assert_eq!("3", json_reader.next_number_as_string()?);
    json_reader.skip_to_top_level()?;
    json_reader.consume_trailing_whitespace()?;

    let mut json_reader = new_reader(r#"{"a": 1}"#);
    json_reader.begin_object()?;
    assert_eq!("a", json_reader.next_name_owned()?);
    // Should also work when currently expecting member value
    json_reader.skip_to_top_level()?;
    json_reader.consume_trailing_whitespace()?;

    let mut json_reader = new_reader(r#"[@]"#);
    json_reader.begin_array()?;
    // Should be able to detect syntax errors
    assert_parse_error_with_path(
        None,
        json_reader.skip_to_top_level(),
        SyntaxErrorKind::MalformedJson,
        &[item(0)],
        1,
    );

    Ok(())
}

#[test]
fn skip_to_top_level_multi_top_level() -> TestResult {
    let mut json_reader = Driver::new_custom(
        "[1] [2] [3]".as_bytes(),
        ReaderSettings {
            allow_multiple_top_level: true,
            ..Default::default()
        },
    );
    json_reader.begin_array()?;
    json_reader.skip_to_top_level()?;
    json_reader.begin_array()?;
    assert_eq!("2", json_reader.next_number_as_string()?);
    json_reader.skip_to_top_level()?;

    // Should have no effect since there is currently no enclosing array
    json_reader.skip_to_top_level()?;
    json_reader.skip_to_top_level()?;

    json_reader.begin_array()?;
    assert_eq!("3", json_reader.next_number_as_string()?);
    json_reader.skip_to_top_level()?;
    json_reader.consume_trailing_whitespace()?;

    Ok(())
}

fn as_transfer_read_error(error: TransferError) -> ReaderError {
    match error {
        TransferError::ReaderError(e) => e,
        _ => panic!("Unexpected error: {error:?}"),
    }
}

#[test]
fn stream_reader_transfer_to() -> TestResult {
    let json =
        r#"[true, null, 123, 123.0e+0, "a\"b\\c\u0064", [1], {"a": 1, "a\"b\\c\u0064": 2, "c":[{"d":[3]}]},"#
            .to_owned()
            + "\"\u{10FFFF}\"]";
    let mut json_reader = new_reader(&json);
    json_reader.begin_array()?;

    let mut json_writer = CompactWriter::new();
    json_writer.begin_array();

    while json_reader.has_next()? {
        json_reader.transfer_to(&mut json_writer)?;
    }
    // Also check how missing value is handled
    assert_unexpected_structure_with_byte_pos(
        json_reader
            .transfer_to(&mut json_writer)
            .map_err(as_transfer_read_error),
        UnexpectedStructureKind::FewerElementsThanExpected,
        &[item(8)],
        99,
        102,
    );

    json_reader.end_array()?;
    json_reader.consume_trailing_whitespace()?;

    json_writer.end_array();
    assert_eq!(
        r#"[true,null,123,123.0e+0,"a\"b\\cd",[1],{"a":1,"a\"b\\cd":2,"c":[{"d":[3]}]},"#
            .to_owned()
            + "\"\u{10FFFF}\"]",
        json_writer.json
    );

    Ok(())
}

#[test]
fn transfer_to_large_string() -> TestResult {
    let repeat_count = 1000;
    let json = format!(
        "\"{}\"",
        // includes redundant escape `\u0062` for 'b'; this verifies that regular string writing
        // of JsonWriter is used and bytes are not just copied
        "a\\u0062 \\n \\u0000 \u{007F}\u{0080}\u{07FF}\u{0800}\u{FFFF}\u{10000}\u{10FFFF}"
            .repeat(repeat_count)
    );
    let expected_json = format!(
        "\"{}\"",
        "ab \\n \\u0000 \u{007F}\u{0080}\u{07FF}\u{0800}\u{FFFF}\u{10000}\u{10FFFF}"
            .repeat(repeat_count)
    );
    let mut json_reader = new_reader(&json);

    let mut json_writer = CompactWriter::new();
    json_reader.transfer_to(&mut json_writer)?;
    json_reader.consume_trailing_whitespace()?;

    assert_eq!(expected_json, json_writer.json);
    Ok(())
}

#[test]
fn transfer_to_string_syntax_error() {
    let mut json_writer = CompactWriter::new();

    let mut json_reader = new_reader(r#""\X""#);
    // Make sure that syntax error is reported as JsonSyntaxError and not wrapped in std::io::Error
    assert_parse_error(
        None,
        json_reader
            .transfer_to(&mut json_writer)
            .map_err(as_transfer_read_error),
        SyntaxErrorKind::UnknownEscapeSequence,
        1,
    );
}

#[test]
#[should_panic(
    expected = "Incorrect reader usage: Cannot transfer value when expecting member name"
)]
fn transfer_to_name() {
    let mut json_writer = CompactWriter::new();
    let mut json_reader = new_reader(r#"{"a": 1}"#);
    json_reader.begin_object().unwrap();

    json_reader.transfer_to(&mut json_writer).unwrap();
}

#[test]
fn transfer_to_comments() -> TestResult {
    let mut json_reader = new_reader_with_comments("[\n// test\n1,/* */2]");

    let mut json_writer = CompactWriter::new();

    json_reader.transfer_to(&mut json_writer)?;
    json_reader.consume_trailing_whitespace()?;

    // Whitespace and comments are not preserved
    assert_eq!("[1,2]", json_writer.json);

    Ok(())
}

/// Writer which always returns an error
struct FailingWriter;

impl Writer for FailingWriter {
    fn write(&mut self, _: TransferAction) -> Result<(), std::io::Error> {
        Err(std::io::Error::new(ErrorKind::Other, "test error"))
    }
}

#[test]
fn transfer_to_writer_error() {
    let json_values = ["true", "null", "123", "\"a\"", "[]", "{}"];
    for json in json_values {
        let mut json_reader = new_reader(json);

        let result = json_reader.transfer_to(&mut FailingWriter);
        match result {
            Ok(_) => panic!("Should have failed"),
            Err(e) => match e {
                TransferError::ReaderError(e) => {
                    panic!("Unexpected error for input '{json}': {e:?}")
                }
                TransferError::WriterError(e) => {
                    assert_eq!(ErrorKind::Other, e.kind());
                    assert_eq!("test error", e.to_string());
                }
            },
        }
    }
}

#[test]
fn excessive_whitespace() -> TestResult {
    let json = r#"


            {
                "a"
                :
                [
                    
                    true,

                    false

                    ,      {          }

                ],

                "b"   :     true
                ,         "c"
                :   false
            }


        "#;

    // Test `transfer_to`
    let mut json_reader = new_reader(json);
    let mut json_writer = CompactWriter::new();
    json_reader.transfer_to(&mut json_writer)?;
    json_reader.consume_trailing_whitespace()?;
    assert_eq!(
        "{\"a\":[true,false,{}],\"b\":true,\"c\":false}",
        json_writer.json
    );

    // Test `skip_value`
    let mut json_reader = new_reader(json);
    json_reader.skip_value()?;
    json_reader.consume_trailing_whitespace()?;

    Ok(())
}

#[test]
fn trailing_data() -> TestResult {
    let mut json_reader = new_reader("1 2");
    assert_eq!("1", json_reader.next_number_as_string()?);
    assert_parse_error(
        None,
        json_reader.consume_trailing_whitespace(),
        SyntaxErrorKind::TrailingData,
        2,
    );
    Ok(())
}

#[test]
#[should_panic(
    expected = "Incorrect reader usage: Cannot skip trailing whitespace when top-level value has not been consumed yet"
)]
fn consume_trailing_whitespace_top_level_not_started() {
    let json_reader = new_reader("");

    json_reader.consume_trailing_whitespace().unwrap();
}

#[test]
#[should_panic(
    expected = "Incorrect reader usage: Cannot skip trailing whitespace when top-level value has not been fully consumed yet"
)]
fn consume_trailing_whitespace_top_level_not_finished() {
    let mut json_reader = new_reader("[]");
    json_reader.begin_array().unwrap();

    json_reader.consume_trailing_whitespace().unwrap();
}

/// Byte order mark U+FEFF should not be allowed
#[test]
fn byte_order_mark() {
    let mut json_reader = new_reader("\u{FEFF}1");
    assert_parse_error(
        None,
        json_reader.next_number_as_string(),
        SyntaxErrorKind::MalformedJson,
        0,
    );
}

fn assert_unexpected_value_type<T>(
    result: Result<T, ReaderError>,
    expected_expected: ValueType,
    expected_actual: ValueType,
    expected_path: &[JsonPathPiece],
    expected_column: u64,
) {
    match result {
        Ok(_) => panic!("Test should have failed"),
        Err(e) => match e {
            ReaderError::UnexpectedValueType {
                expected,
                actual,
                location,
            } => {
                assert_eq!(expected_expected, expected);
                assert_eq!(expected_actual, actual);
                assert_eq!(
                    JsonReaderPosition {
                        path: Some(copy_path(expected_path)),
                        line_pos: Some(LinePosition {
                            line: 0,
                            column: expected_column
                        }),
                        // Assume input is ASCII only on single line; treat column as byte pos
                        data_pos: Some(expected_column),
                    },
                    location
                );
            }
            other => {
                panic!("Unexpected error: {other:?}")
            }
        },
    }
}

fn assert_unexpected_structure_with_byte_pos<T>(
    result: Result<T, ReaderError>,
    expected_kind: UnexpectedStructureKind,
    expected_path: &[JsonPathPiece],
    expected_column: u64,
    expected_byte_pos: u64,
) {
    match result {
        Ok(_) => panic!("Test should have failed"),
        Err(e) => match e {
            ReaderError::UnexpectedStructure { kind, location } => {
                assert_eq!(expected_kind, kind);
                assert_eq!(
                    JsonReaderPosition {
                        path: Some(copy_path(expected_path)),
                        line_pos: Some(LinePosition {
                            line: 0,
                            column: expected_column
                        }),
                        data_pos: Some(expected_byte_pos),
                    },
                    location
                );
            }
            other => {
                panic!("Unexpected error: {other:?}")
            }
        },
    }
}

fn assert_unexpected_structure<T>(
    result: Result<T, ReaderError>,
    expected_kind: UnexpectedStructureKind,
    expected_path: &[JsonPathPiece],
    expected_column: u64,
) {
    assert_unexpected_structure_with_byte_pos(
        result,
        expected_kind,
        expected_path,
        expected_column,
        // Assume input is ASCII only on single line; treat column as byte pos
        expected_column,
    )
}

#[test]
fn unexpected_structure() -> TestResult {
    let mut json_reader = new_reader("[]");
    json_reader.begin_array()?;
    assert_unexpected_structure(
        json_reader.peek(),
        UnexpectedStructureKind::FewerElementsThanExpected,
        &[item(0)],
        1,
    );
    assert_unexpected_structure(
        json_reader.next_bool(),
        UnexpectedStructureKind::FewerElementsThanExpected,
        &[item(0)],
        1,
    );

    let mut json_reader = new_reader("[1]");
    json_reader.begin_array()?;
    assert_unexpected_structure(
        json_reader.end_array(),
        UnexpectedStructureKind::MoreElementsThanExpected,
        &[item(0)],
        1,
    );

    let mut json_reader = new_reader("{}");
    json_reader.begin_object()?;
    assert_unexpected_structure(
        json_reader.next_name_owned(),
        UnexpectedStructureKind::FewerElementsThanExpected,
        &[member("<?>")],
        1,
    );

    let mut json_reader = new_reader(r#"{"a": 1}"#);
    json_reader.begin_object()?;
    assert_unexpected_structure(
        json_reader.end_object(),
        UnexpectedStructureKind::MoreElementsThanExpected,
        &[member("<?>")],
        1,
    );

    Ok(())
}

#[test]
fn unexpected_value_type() {
    let mut json_reader = new_reader("1");
    assert_unexpected_value_type(
        json_reader.next_bool(),
        ValueType::Boolean,
        ValueType::Number,
        &[],
        0,
    );
    assert_unexpected_value_type(
        json_reader.next_null(),
        ValueType::Null,
        ValueType::Number,
        &[],
        0,
    );
    assert_unexpected_value_type(
        json_reader.next_string(),
        ValueType::String,
        ValueType::Number,
        &[],
        0,
    );
    assert_unexpected_value_type(
        json_reader.begin_array(),
        ValueType::Array,
        ValueType::Number,
        &[],
        0,
    );
    assert_unexpected_value_type(
        json_reader.begin_object(),
        ValueType::Object,
        ValueType::Number,
        &[],
        0,
    );

    let mut json_reader = new_reader("true");
    assert_unexpected_value_type(
        json_reader.next_number_as_string(),
        ValueType::Number,
        ValueType::Boolean,
        &[],
        0,
    );

    let mut json_reader = new_reader("false");
    assert_unexpected_value_type(
        json_reader.next_null(),
        ValueType::Null,
        ValueType::Boolean,
        &[],
        0,
    );

    let mut json_reader = new_reader("null");
    assert_unexpected_value_type(
        json_reader.next_bool(),
        ValueType::Boolean,
        ValueType::Null,
        &[],
        0,
    );

    let mut json_reader = new_reader("\"ab\"");
    assert_unexpected_value_type(
        json_reader.next_bool(),
        ValueType::Boolean,
        ValueType::String,
        &[],
        0,
    );

    let mut json_reader = new_reader("[]");
    assert_unexpected_value_type(
        json_reader.next_bool(),
        ValueType::Boolean,
        ValueType::Array,
        &[],
        0,
    );

    let mut json_reader = new_reader("{}");
    assert_unexpected_value_type(
        json_reader.next_bool(),
        ValueType::Boolean,
        ValueType::Object,
        &[],
        0,
    );
}

#[test]
fn multiple_top_level() -> TestResult {
    let mut json_reader = Driver::new_custom(
        "[1] [2]".as_bytes(),
        ReaderSettings {
            allow_multiple_top_level: true,
            ..Default::default()
        },
    );

    assert_eq!(ValueType::Array, json_reader.peek()?);
    json_reader.begin_array()?;
    assert_eq!("1", json_reader.next_number_as_string()?);
    json_reader.end_array()?;

    assert!(json_reader.has_next()?);
    assert_eq!(ValueType::Array, json_reader.peek()?);
    json_reader.begin_array()?;
    assert_eq!("2", json_reader.next_number_as_string()?);
    json_reader.end_array()?;

    assert_eq!(false, json_reader.has_next()?);
    assert_unexpected_structure(
        json_reader.peek(),
        UnexpectedStructureKind::FewerElementsThanExpected,
        &[],
        7,
    );
    assert_unexpected_structure(
        json_reader.next_bool(),
        UnexpectedStructureKind::FewerElementsThanExpected,
        &[],
        7,
    );

    json_reader.consume_trailing_whitespace()?;

    Ok(())
}

#[test]
#[should_panic(
    expected = "Incorrect reader usage: Cannot peek when top-level value has already been consumed and multiple top-level values are not enabled in settings"
)]
fn multiple_top_level_disallowed() {
    let mut json_reader = new_reader("1 2");
    assert_eq!("1", json_reader.next_number_as_string().unwrap());

    json_reader.next_number_as_string().unwrap();
}

#[test]
#[should_panic(
    expected = "Incorrect reader usage: Cannot check for next element when top-level value has not been started"
)]
fn has_next_start_of_document() {
    let mut json_reader = Driver::new_custom(
        "[1]".as_bytes(),
        ReaderSettings {
            allow_multiple_top_level: true,
            ..Default::default()
        },
    );

    json_reader.has_next().unwrap();
}

#[test]
#[should_panic(
    expected = "Incorrect reader usage: Cannot check for next element when member value is expected"
)]
fn has_next_member_value() {
    let mut json_reader = new_reader(r#"{"a": 1}"#);
    json_reader.begin_object().unwrap();
    assert_eq!("a", json_reader.next_name_owned().unwrap());

    json_reader.has_next().unwrap();
}

#[test]
fn malformed_whitespace() {
    // Cannot use escape sequences outside of string values
    let mut json_reader = new_reader("\\u0020");
    assert_parse_error(
        None,
        json_reader.peek(),
        SyntaxErrorKind::MalformedJson,
        0,
    );

    let mut json_reader = new_reader("\\n");
    assert_parse_error(
        None,
        json_reader.peek(),
        SyntaxErrorKind::MalformedJson,
        0,
    );

    let mut json_reader = new_reader("\\r");
    assert_parse_error(
        None,
        json_reader.peek(),
        SyntaxErrorKind::MalformedJson,
        0,
    );

    let mut json_reader = new_reader("\\t");
    assert_parse_error(
        None,
        json_reader.peek(),
        SyntaxErrorKind::MalformedJson,
        0,
    );

    // Form feed (U+000C) is not allowed as whitespace
    let mut json_reader = new_reader("\u{000C}");
    assert_parse_error(
        None,
        json_reader.peek(),
        SyntaxErrorKind::MalformedJson,
        0,
    );

    // Line separator (U+2028), recognized by JavaScript but not allowed as whitespace for JSON
    let mut json_reader = new_reader("\u{2028}");
    assert_parse_error(
        None,
        json_reader.peek(),
        SyntaxErrorKind::MalformedJson,
        0,
    );

    // Paragraph separator (U+2029), recognized by JavaScript but not allowed as whitespace for JSON
    let mut json_reader = new_reader("\u{2029}");
    assert_parse_error(
        None,
        json_reader.peek(),
        SyntaxErrorKind::MalformedJson,
        0,
    );
}

fn new_reader_with_comments(json: &str) -> Driver<&[u8]> {
    Driver::new_custom(
        json.as_bytes(),
        ReaderSettings {
            allow_comments: true,
            ..Default::default()
        },
    )
}

#[test]
fn comments() -> TestResult {
    let mut json_reader = new_reader("/");
    assert_parse_error(
        None,
        json_reader.peek(),
        SyntaxErrorKind::CommentsNotEnabled,
        0,
    );

    for json_input in [
        "/* a */1",
        " /* a */ 1",
        "/**/1",
        "/***/1",
        "/* // */1",
        "/* \n \r \r\n */1",
        "/* \u{0000} */1", // unescaped control characters are allowed in comments
        "1/* 1 */",
        "//\n1",
        "// a\n1",
        "// /* a\n1",
        "// a\n// b\r// c\r\n1",
        "1// a",
        "1// a\n",
        "1//",
    ] {
        let mut json_reader = new_reader_with_comments(json_input);
        assert_eq!("1", json_reader.next_number_as_string()?);
        json_reader.consume_trailing_whitespace()?;
    }

    let mut json_reader = new_reader_with_comments(
        r#"/* a */ /* a * b * / */ [/* // a, ] */1/**/,/**/ /***/2, {/**/"a"/**/:/**/1/**/,"b"/**/:/**/2/**/}/**/]/**/"#,
    );
    json_reader.begin_array()?;
    assert_eq!("1", json_reader.next_number_as_string()?);
    assert_eq!("2", json_reader.next_number_as_string()?);

    json_reader.begin_object()?;
    assert_eq!("a", json_reader.next_name_owned()?);
    assert_eq!("1", json_reader.next_number_as_string()?);
    assert_eq!("b", json_reader.next_name_owned()?);
    assert_eq!("2", json_reader.next_number_as_string()?);
    json_reader.end_object()?;

    json_reader.end_array()?;
    json_reader.consume_trailing_whitespace()?;

    let mut json_reader =
        new_reader_with_comments("[// */ a]\n1//, 4 // 5\r// first\r\n//second\n, 2]// test");
    json_reader.begin_array()?;
    assert_eq!("1", json_reader.next_number_as_string()?);
    assert_eq!("2", json_reader.next_number_as_string()?);
    json_reader.end_array()?;
    json_reader.consume_trailing_whitespace()?;

    let mut json_reader = new_reader_with_comments("/* a */");
    assert_parse_error(
        None,
        json_reader.peek(),
        SyntaxErrorKind::IncompleteDocument,
        7,
    );

    let mut json_reader = new_reader_with_comments("// a");
    assert_parse_error(
        None,
        json_reader.peek(),
        SyntaxErrorKind::IncompleteDocument,
        4,
    );

    Ok(())
}

#[test]
fn comments_malformed() -> TestResult {
    let mut json_reader = new_reader_with_comments("/ a");
    assert_parse_error(
        None,
        json_reader.peek(),
        SyntaxErrorKind::IncompleteComment,
        1,
    );

    let mut json_reader = new_reader_with_comments("/");
    assert_parse_error(
        None,
        json_reader.peek(),
        SyntaxErrorKind::IncompleteComment,
        1,
    );

    let mut json_reader = new_reader_with_comments("1/");
    assert_eq!("1", json_reader.next_number_as_string()?);
    assert_parse_error(
        None,
        json_reader.consume_trailing_whitespace(),
        SyntaxErrorKind::IncompleteComment,
        2,
    );

    let mut json_reader = new_reader_with_comments("/*");
    assert_parse_error(
        None,
        json_reader.peek(),
        SyntaxErrorKind::BlockCommentNotClosed,
        2,
    );

    let mut json_reader = new_reader_with_comments("/* a");
    assert_parse_error(
        None,
        json_reader.peek(),
        SyntaxErrorKind::BlockCommentNotClosed,
        4,
    );

    let mut json_reader = new_reader_with_comments("/* a /");
    assert_parse_error(
        None,
        json_reader.peek(),
        SyntaxErrorKind::BlockCommentNotClosed,
        6,
    );

    let mut json_reader = new_reader_with_comments("/* a //");
    assert_parse_error(
        None,
        json_reader.peek(),
        SyntaxErrorKind::BlockCommentNotClosed,
        7,
    );

    let mut json_reader = new_reader_with_comments("/*/");
    assert_parse_error(
        None,
        json_reader.peek(),
        SyntaxErrorKind::BlockCommentNotClosed,
        3,
    );

    let mut json_reader = new_reader_with_comments("1/*");
    assert_eq!("1", json_reader.next_number_as_string()?);
    assert_parse_error(
        None,
        json_reader.consume_trailing_whitespace(),
        SyntaxErrorKind::BlockCommentNotClosed,
        3,
    );

    let mut json_reader = new_reader_with_comments("*/");
    assert_parse_error(
        None,
        json_reader.peek(),
        SyntaxErrorKind::MalformedJson,
        0,
    );

    // Malformed single byte
    let mut json_reader = Driver::new_custom(
        b"/*\x80*/" as &[u8],
        ReaderSettings {
            allow_comments: true,
            ..Default::default()
        },
    );
    match &json_reader.peek() {
        Err(ReaderError::IoError { error, location }) => {
            assert_eq!(&IoError::InvalidUtf8, error);
            assert_eq!("invalid UTF-8 data", error.message());
            assert_eq!(
                &JsonReaderPosition {
                    path: Some(Vec::new()),
                    line_pos: Some(LinePosition { line: 0, column: 2 }),
                    data_pos: Some(2),
                },
                location
            );
            assert_eq!(
                "IO error 'invalid UTF-8 data' at (roughly) path '$', line 0, column 2 (data pos 2)",
                describe_io_error(error.message(), location)
            );
        }
        result => panic!("Unexpected result: {result:?}"),
    }

    Ok(())
}

#[test]
fn current_position() -> TestResult {
    let mut json_reader = Driver::new_custom(
        r#"  [  1  , {  "a"  : true  }  ]  "#.as_bytes(),
        ReaderSettings {
            allow_multiple_top_level: true,
            ..Default::default()
        },
    );

    // Test `include_path=true`
    let position = json_reader.current_position(true);
    assert_eq!(
        JsonReaderPosition {
            path: Some(Vec::new()),
            line_pos: Some(LinePosition { line: 0, column: 0 }),
            data_pos: Some(0)
        },
        position
    );

    // Test `include_path=false`
    let position = json_reader.current_position(false);
    assert_eq!(
        JsonReaderPosition {
            path: None,
            line_pos: Some(LinePosition { line: 0, column: 0 }),
            data_pos: Some(0)
        },
        position
    );

    fn assert_pos(
        json_reader: &Driver<impl Read>,
        expected_path: &[JsonPathPiece],
        expected_column: u64,
    ) {
        let position = json_reader.current_position(true);
        assert_eq!(
            JsonReaderPosition {
                path: Some(copy_path(expected_path)),
                line_pos: Some(LinePosition {
                    line: 0,
                    column: expected_column,
                }),
                // Assume input is ASCII only on single line; treat column as byte pos
                data_pos: Some(expected_column)
            },
            position
        );
    }

    // Note: The expected column position before `has_next()` and `peek()` calls below just
    // represents the value returned by the current implementation; the `current_position()`
    // doc says the value is unspecified unless `has_next()` or `peek()` has been called
    assert_pos(&json_reader, &[], 0);
    assert_eq!(ValueType::Array, json_reader.peek()?);
    assert_pos(&json_reader, &[], 2);
    json_reader.begin_array()?;
    assert_pos(&json_reader, &[item(0)], 3);
    assert!(json_reader.has_next()?);
    assert_pos(&json_reader, &[item(0)], 5);
    assert_eq!("1", json_reader.next_number_as_str()?);
    assert_pos(&json_reader, &[item(1)], 6);
    assert!(json_reader.has_next()?);
    assert_pos(&json_reader, &[item(1)], 10);
    json_reader.begin_object()?;
    assert_pos(&json_reader, &[item(1), member("<?>")], 11);
    assert!(json_reader.has_next()?);
    assert_pos(&json_reader, &[item(1), member("<?>")], 13);
    assert_eq!("a", json_reader.next_name()?);
    assert_pos(&json_reader, &[item(1), member("a")], 16);
    assert_eq!(ValueType::Boolean, json_reader.peek()?);
    assert_pos(&json_reader, &[item(1), member("a")], 20);
    assert_eq!(true, json_reader.next_bool()?);
    assert_pos(&json_reader, &[item(1), member("a")], 24);
    assert!(!json_reader.has_next()?);
    assert_pos(&json_reader, &[item(1), member("a")], 26);
    json_reader.end_object()?;
    assert_pos(&json_reader, &[item(2)], 27);
    assert!(!json_reader.has_next()?);
    assert_pos(&json_reader, &[item(2)], 29);
    json_reader.end_array()?;
    assert_pos(&json_reader, &[], 30);
    // Check for another top-level value
    assert!(!json_reader.has_next()?);
    assert_pos(&json_reader, &[], 32);

    Ok(())
}

#[test]
fn location_whitespace() {
    fn assert_location(
        json: &str,
        expected_line: u64,
        expected_column: u64,
        expected_byte_pos: u64,
    ) {
        let mut json_reader = new_reader_with_comments(json);
        match json_reader.peek() {
            Ok(_) => panic!("Test should have failed"),
            Err(e) => match e {
                ReaderError::SyntaxError(e) => assert_eq!(
                    JsonSyntaxError {
                        kind: SyntaxErrorKind::IncompleteDocument,
                        location: JsonReaderPosition {
                            path: Some(Vec::new()),
                            line_pos: Some(LinePosition {
                                line: expected_line,
                                column: expected_column
                            }),
                            data_pos: Some(expected_byte_pos),
                        },
                    },
                    e
                ),
                other => {
                    panic!("Unexpected error: {other:?}")
                }
            },
        }
    }

    assert_location("", 0, 0, 0);
    assert_location(" ", 0, 1, 1);
    assert_location("\t", 0, 1, 1);
    assert_location("\n", 1, 0, 1);
    assert_location("\r", 1, 0, 1);
    assert_location("\r\n", 1, 0, 2);
    assert_location("\r \n", 2, 0, 3);
    assert_location("\n\r", 2, 0, 2);
    assert_location("\r\n\n", 2, 0, 3);
    assert_location("\r\r", 2, 0, 2);
    assert_location("\r\r\n", 2, 0, 3);
    assert_location("\n  \r \t \r\n    \t\t ", 3, 7, 16);

    assert_location("//\n", 1, 0, 3);
    assert_location("//\n  ", 1, 2, 5);
    assert_location("//\n  //\r  // a", 2, 6, 14);

    assert_location("/* */", 0, 5, 5);
    assert_location("/* */\n ", 1, 1, 7);
    assert_location("/* \n \r */  ", 2, 5, 11);
    // Multi-byte UTF-8 encoded char should be considered only 1 column
    assert_location("/*\u{10FFFF}*/", 0, 5, 8);
}

#[test]
fn location_value() {
    fn assert_location(json: &str, expected_column: u64, expected_byte_pos: u64) {
        let mut json_reader = new_reader(json);
        json_reader.begin_array().unwrap();
        json_reader.skip_value().unwrap();
        assert_parse_error_with_byte_pos(
            Some(json),
            json_reader.peek(),
            SyntaxErrorKind::IncompleteDocument,
            &[item(1)],
            expected_column,
            expected_byte_pos,
        );
    }

    assert_location("[true,", 6, 6);
    assert_location("[false,", 7, 7);
    assert_location("[null,", 6, 6);
    assert_location("[123e1,", 7, 7);
    assert_location(r#"["","#, 4, 4);
    assert_location(r#"["\"\\\/\b\f\n\r\t\u1234","#, 26, 26);
    // Escaped line breaks should not be considered line breaks
    assert_location(r#"["\n \r","#, 9, 9);
    assert_location(r#"["\u000A \u000D","#, 17, 17);
    // Multi-byte UTF-8 encoded character should be considered single character
    assert_location("[\"\u{10FFFF}\",", 5, 8);
    // Line separator and line paragraph should not be considered line breaks
    assert_location("[\"\u{2028}\u{2029}\",", 6, 10);
    assert_location("[[],", 4, 4);
    assert_location("[[1, 2],", 8, 8);
    assert_location("[{},", 4, 4);
    assert_location(r#"[{"a": 1},"#, 10, 10);
}

#[test]
fn location_malformed_name() -> TestResult {
    let mut json_reader = new_reader("{\"a\": 1, \"b\\X\": 2}");
    json_reader.begin_object()?;
    assert_eq!("a", json_reader.next_name_owned()?);
    assert_eq!("1", json_reader.next_number_as_string()?);
    assert_parse_error_with_path(
        None,
        json_reader.next_name_owned(),
        SyntaxErrorKind::UnknownEscapeSequence,
        &[member("a")],
        11,
    );

    Ok(())
}

#[test]
fn location_skip() -> TestResult {
    let mut json_reader =
        new_reader(r#"[true, false, null, 12, "test", [], [34], {}, {"a": 1}]"#);
    json_reader.begin_array()?;

    for (item_index, column_position) in [1, 7, 14, 20, 24, 32, 36, 42, 46].iter().enumerate() {
        assert_unexpected_structure(
            json_reader.end_array(),
            UnexpectedStructureKind::MoreElementsThanExpected,
            &[item(item_index as u32)],
            *column_position,
        );
        json_reader.skip_value()?;
    }
    json_reader.end_array()?;

    let mut json_reader = new_reader(r#"{"a": 1, "b": 2}"#);
    json_reader.begin_object()?;
    assert_unexpected_structure(
        json_reader.end_object(),
        UnexpectedStructureKind::MoreElementsThanExpected,
        &[member("<?>")],
        1,
    );

    json_reader.skip_name()?;
    assert_unexpected_value_type(
        json_reader.next_bool(),
        ValueType::Boolean,
        ValueType::Number,
        &[member("a")],
        6,
    );

    json_reader.skip_value()?;

    assert_unexpected_structure(
        json_reader.end_object(),
        UnexpectedStructureKind::MoreElementsThanExpected,
        &[member("a")],
        9,
    );
    json_reader.skip_name()?;
    assert_unexpected_value_type(
        json_reader.next_bool(),
        ValueType::Boolean,
        ValueType::Number,
        &[member("b")],
        14,
    );

    json_reader.skip_value()?;

    assert_unexpected_structure(
        json_reader.next_name_owned(),
        UnexpectedStructureKind::FewerElementsThanExpected,
        &[member("b")],
        15,
    );
    json_reader.end_object()?;

    Ok(())
}

struct FewBytesReader<'a> {
    bytes: &'a [u8],
    pos: usize,
}

impl Read for FewBytesReader<'_> {
    fn read(&mut self, buf: &mut [u8]) -> std::io::Result<usize> {
        if self.pos >= self.bytes.len() {
            return Ok(0);
        }
        // Always reads at most 3 bytes
        let read_count = 3.min(buf.len().min(self.bytes.len() - self.pos));
        buf[..read_count].copy_from_slice(&self.bytes[self.pos..(self.pos + read_count)]);
        self.pos += read_count;

        Ok(read_count)
    }
}

#[test]
fn few_bytes_reader() -> TestResult {
    let count = READER_BUF_SIZE;
    let json = format!("[{}true]", "true,".repeat(count - 1));
    let mut json_reader = Driver::new(FewBytesReader {
        bytes: json.as_bytes(),
        pos: 0,
    });

    json_reader.begin_array()?;
    for _ in 0..count {
        assert_eq!(true, json_reader.next_bool()?);
    }
    json_reader.end_array()?;
    json_reader.consume_trailing_whitespace()?;
    Ok(())
}

#[test]
fn large_document() -> TestResult {
    let count = READER_BUF_SIZE;
    let json = format!("[{}true]", "true,".repeat(count - 1));
    let mut json_reader = new_reader(&json);

    json_reader.begin_array()?;
    for _ in 0..count {
        assert_eq!(true, json_reader.next_bool()?);
    }
    json_reader.end_array()?;
    assert_eq!(json.len() as u64, json_reader.column());
    json_reader.consume_trailing_whitespace()?;
    Ok(())
}

#[test]
fn no_path_tracking() -> TestResult {
    let mut json_reader = Driver::new_custom(
        // Test with JSON data containing various values and a malformed `@` at the end
        "[{\"a\": [[], [1], {}, {\"b\": 1}, {\"c\": 2}, {\"d\": 3}, @]}]".as_bytes(),
        ReaderSettings {
            track_path: false,
            ..Default::default()
        },
    );
    json_reader.begin_array()?;
    json_reader.begin_object()?;
    assert_eq!("a", json_reader.next_name_owned()?);
    json_reader.begin_array()?;

    json_reader.begin_array()?;
    json_reader.end_array()?;

    json_reader.begin_array()?;
    assert_eq!("1", json_reader.next_number_as_string()?);
    json_reader.end_array()?;

    json_reader.begin_object()?;
    json_reader.end_object()?;

    json_reader.begin_object()?;
    assert_eq!("b", json_reader.next_name_owned()?);
    assert_eq!("1", json_reader.next_number_as_string()?);
    json_reader.end_object()?;

    json_reader.begin_object()?;
    assert_eq!("c", json_reader.next_name()?);
    assert_eq!("2", json_reader.next_number_as_string()?);
    json_reader.end_object()?;

    json_reader.skip_value()?;
    match json_reader.peek() {
        Err(ReaderError::SyntaxError(JsonSyntaxError {
            kind: SyntaxErrorKind::MalformedJson,
            location:
                JsonReaderPosition {
                    // `None` because path tracking is disabled
                    path: None,
                    line_pos:
                        Some(LinePosition {
                            line: 0,
                            column: 51,
                        }),
                    data_pos: Some(51),
                },
        })) => {}
        r => panic!("Unexpected result: {r:?}"),
    }

    Ok(())
}

/// Reader which returns `ErrorKind::Interrupted` most of the time
struct InterruptedReader<'a> {
    remaining_data: &'a [u8],
    // For every read attempt return `ErrorKind::Interrupted` a few times before performing read
    interrupted_count: u32,
}
impl<'a> InterruptedReader<'a> {
    pub fn new(json: &'a str) -> Self {
        InterruptedReader {
            remaining_data: json.as_bytes(),
            interrupted_count: 0,
        }
    }
}
impl Read for InterruptedReader<'_> {
    fn read(&mut self, buf: &mut [u8]) -> std::io::Result<usize> {
        if self.remaining_data.is_empty() || buf.is_empty() {
            return Ok(0);
        }

        if self.interrupted_count >= 3 {
            self.interrupted_count = 0;
            // Only read a single byte
            buf[0] = self.remaining_data[0];
            self.remaining_data = &self.remaining_data[1..];
            Ok(1)
        } else {
            self.interrupted_count += 1;
            Err(std::io::Error::from(ErrorKind::Interrupted))
        }
    }
}

/// String value reader must not return (or rather propagate) `ErrorKind::Interrupted`;
/// otherwise most `Read` methods will re-attempt the read even though the underlying
/// JSON stream reader is in an inconsistent state (e.g. incomplete escape sequence
/// having been consumed).
#[test]
fn string_reader_interrupted() -> TestResult {
    let mut reader = InterruptedReader::new("\"test \\\" \u{10FFFF}\"");
    let mut json_reader = Driver::new(&mut reader);

    let mut string_reader = json_reader.next_string_reader()?;
    let mut buf = [0_u8; 11]; // sized to matched expected string
    match string_reader.read(&mut buf) {
        // Current implementation should have filled complete buf (this is not a requirement of `Read::read` though)
        Ok(n) => assert_eq!(buf.len(), n),
        // For current implementation no error should have occurred
        // Especially regardless of implemention, `ErrorKind::Interrupted` must not have been returned
        r => panic!("Unexpected result: {r:?}"),
    }
    assert_eq!("test \" \u{10FFFF}", std::str::from_utf8(&buf).unwrap());
    assert_eq!(0, string_reader.read(&mut buf)?);
    drop(string_reader);

    json_reader.consume_trailing_whitespace()?;
    Ok(())
}

/// JSON stream reader should continuously retry reading in case underlying `Read`
/// returns `ErrorKind::Interrupted`.
#[test]
fn reader_interrupted() -> TestResult {
    let mut reader = InterruptedReader::new(
        "[true, 123.4e5, \"test \\\" 1 \u{10FFFF}\", \"test \\\" 2 \u{10FFFF}\"]",
    );
    let mut json_reader = Driver::new(&mut reader);

    json_reader.begin_array()?;
    assert_eq!(true, json_reader.next_bool()?);
    assert_eq!("123.4e5", json_reader.next_number_as_str()?);
    assert_eq!("test \" 1 \u{10FFFF}", json_reader.next_str()?);

    let mut string_reader = json_reader.next_string_reader()?;
    let mut string_buf = String::new();
    string_reader.read_to_string(&mut string_buf)?;
    drop(string_reader);
    assert_eq!("test \" 2 \u{10FFFF}", string_buf);

    json_reader.end_array()?;
    json_reader.consume_trailing_whitespace()?;
    Ok(())
}

struct DebuggableReader<'a> {
    bytes: &'a [u8],
    has_read: bool,
}
impl<'a> DebuggableReader<'a> {
    fn new(bytes: &'a [u8]) -> Self {
        DebuggableReader {
            bytes,
            has_read: false,
        }
    }
}

impl Read for DebuggableReader<'_> {
    fn read(&mut self, buf: &mut [u8]) -> std::io::Result<usize> {
        if self.has_read {
            return Ok(0);
        }

        let bytes_len = self.bytes.len();

        // For simplicity of this test assume that buf is large enough
        assert!(buf.len() >= bytes_len);
        buf[..bytes_len].copy_from_slice(self.bytes);
        self.has_read = true;
        Ok(bytes_len)
    }
}

impl Debug for DebuggableReader<'_> {
    fn fmt(&self, f: &mut std::fmt::Formatter<'_>) -> std::fmt::Result {
        f.write_str("debuggable-reader")
    }
}

fn new_with_debuggable_reader(bytes: &[u8]) -> Driver<DebuggableReader> {
    Driver::new(DebuggableReader::new(bytes))
}

// The following Debug output tests mainly exist to make sure the buffer content is properly displayed
// Besides that they heavily rely on implementation details

#[test]
fn debug_reader() -> TestResult {
    let json_number = "123";
    let mut json_reader = new_with_debuggable_reader(json_number.as_bytes());
    assert_eq!(
        "JsonStreamReader { reader: debuggable-reader, buf_count: 0, buf_str: \"\", peeked: None, is_empty: true, expects_member_name: false, stack: [], is_string_value_reader_active: false, line: 0, column: 0, byte_pos: 0, json_path: Some([]), reader_settings: ReaderSettings { allow_comments: false, allow_trailing_comma: false, allow_multiple_top_level: false, track_path: true, max_nesting_depth: Some(128), restrict_number_values: true } }",
        json_reader.debug_text()
    );

    assert_eq!(ValueType::Number, json_reader.peek()?);
    assert_eq!(
        "JsonStreamReader { reader: debuggable-reader, buf_count: 3, buf_str: \"123\", peeked: Some(NumberStart), is_empty: true, expects_member_name: false, stack: [], is_string_value_reader_active: false, line: 0, column: 0, byte_pos: 0, json_path: Some([]), reader_settings: ReaderSettings { allow_comments: false, allow_trailing_comma: false, allow_multiple_top_level: false, track_path: true, max_nesting_depth: Some(128), restrict_number_values: true } }",
        json_reader.debug_text()
    );

    assert_eq!(json_number, json_reader.next_number_as_string()?);
    json_reader.consume_trailing_whitespace()?;
    Ok(())
}

#[test]
fn debug_reader_long() -> TestResult {
    let json_number = "123456".repeat(100);
    let mut json_reader = Driver::new_custom(
        DebuggableReader::new(json_number.as_bytes()),
        ReaderSettings {
            restrict_number_values: false,
            ..Default::default()
        },
    );

    assert_eq!(ValueType::Number, json_reader.peek()?);
    assert_eq!(
        "JsonStreamReader { reader: debuggable-reader, buf_count: 600, buf_str: \"123456123456123456123456123456123456123456123...\", peeked: Some(NumberStart), is_empty: true, expects_member_name: false, stack: [], is_string_value_reader_active: false, line: 0, column: 0, byte_pos: 0, json_path: Some([]), reader_settings: ReaderSettings { allow_comments: false, allow_trailing_comma: false, allow_multiple_top_level: false, track_path: true, max_nesting_depth: Some(128), restrict_number_values: false } }",
        json_reader.debug_text()
    );

    assert_eq!(json_number, json_reader.next_number_as_string()?);
    json_reader.consume_trailing_whitespace()?;
    Ok(())
}

#[test]
fn debug_reader_incomplete() -> TestResult {
    // Incomplete UTF-8 multi-byte
    let json = b"\"this is a test\xC3";
    let mut json_reader = new_with_debuggable_reader(json);
    assert_eq!(ValueType::String, json_reader.peek()?);
    assert_eq!(
        "JsonStreamReader { reader: debuggable-reader, buf_count: 15, buf_str: \"this is a test...\", ...buf...: [195], peeked: Some(StringStart), is_empty: true, expects_member_name: false, stack: [], is_string_value_reader_active: false, line: 0, column: 0, byte_pos: 0, json_path: Some([]), reader_settings: ReaderSettings { allow_comments: false, allow_trailing_comma: false, allow_multiple_top_level: false, track_path: true, max_nesting_depth: Some(128), restrict_number_values: true } }",
        json_reader.debug_text()
    );
    Ok(())
}

#[test]
fn debug_reader_invalid_short() -> TestResult {
    // Malformed UTF-8
    let json = b"\"a\xFF";
    let mut json_reader = new_with_debuggable_reader(json);
    assert_eq!(ValueType::String, json_reader.peek()?);
    assert_eq!(
        "JsonStreamReader { reader: debuggable-reader, buf_count: 2, buf_str: \"a...\", ...buf...: [255], peeked: Some(StringStart), is_empty: true, expects_member_name: false, stack: [], is_string_value_reader_active: false, line: 0, column: 0, byte_pos: 0, json_path: Some([]), reader_settings: ReaderSettings { allow_comments: false, allow_trailing_comma: false, allow_multiple_top_level: false, track_path: true, max_nesting_depth: Some(128), restrict_number_values: true } }",
        json_reader.debug_text()
    );
    Ok(())
}

#[test]
fn debug_reader_invalid_long() -> TestResult {
    // Malformed UTF-8 after long valid prefix
    let mut json = vec![b'\"'];
    json.extend(b"abcdef".repeat(20));
    json.push(b'\xFF');

    let mut json_reader = new_with_debuggable_reader(json.as_slice());
    assert_eq!(ValueType::String, json_reader.peek()?);
    assert_eq!(
        "JsonStreamReader { reader: debuggable-reader, buf_count: 121, buf_str: \"abcdefabcdefabcdefabcdefabcdefabcdefabcdefabc...\", peeked: Some(StringStart), is_empty: true, expects_member_name: false, stack: [], is_string_value_reader_active: false, line: 0, column: 0, byte_pos: 0, json_path: Some([]), reader_settings: ReaderSettings { allow_comments: false, allow_trailing_comma: false, allow_multiple_top_level: false, track_path: true, max_nesting_depth: Some(128), restrict_number_values: true } }",
        json_reader.debug_text()
    );
    Ok(())
}

#[test]
fn large_number() -> TestResult {
    let count = READER_BUF_SIZE;
    let number_json = "123".repeat(count);
    let mut json_reader = Driver::new_custom(
        number_json.as_bytes(),
        ReaderSettings {
            restrict_number_values: false,
            ..Default::default()
        },
    );

    assert_eq!(number_json, json_reader.next_number_as_string()?);
    assert_eq!(number_json.len() as u64, json_reader.column());
    json_reader.consume_trailing_whitespace()?;
    Ok(())
}

#[test]
fn large_string() -> TestResult {
    let count = READER_BUF_SIZE;
    let string_json = "abc\u{10FFFF}d\\u1234e\\n".repeat(count);
    let expected_string_value = "abc\u{10FFFF}d\u{1234}e\n".repeat(count);
    let json = format!("\"{string_json}\"");
    let mut json_reader = new_reader(&json);

    assert_eq!(expected_string_value, json_reader.next_string()?);
    // `- (3 * count)` to account for \u{10FFFF} taking up 4 bytes but representing a single char
    assert_eq!((json.len() - (3 * count)) as u64, json_reader.column());
    json_reader.consume_trailing_whitespace()?;
    Ok(())
}

fn new_reader_without_path(json: &str) -> Driver<&[u8]> {
    Driver::new_custom(
        json.as_bytes(),
        ReaderSettings {
            track_path: false,
            ..Default::default()
        },
    )
}

#[test]
fn skip() -> TestResult {
    let json =
        r#"{"a": [{"b": 1, "c": [[], [2, {"d": 3, "e": "some string value"}]]}], "f": true}"#;
    let mut json_reader = new_reader_without_path(json);

    json_reader.skip_value()?;
    json_reader.consume_trailing_whitespace()?;
    Ok(())
}

#[test]
fn read_values() -> TestResult {
    let json = "{\"a\": [\"string\", \"\u{1234}\u{10FFFF}\", 1234.5e+6, true, false, null]}";
    let mut json_reader = new_reader_without_path(json);

    json_reader.begin_object()?;
    assert_eq!("a", json_reader.next_name()?);
    json_reader.begin_array()?;

    assert_eq!("string", json_reader.next_str()?);
    assert_eq!("\u{1234}\u{10FFFF}", json_reader.next_str()?);
    assert_eq!("1234.5e+6", json_reader.next_number_as_str()?);
    assert_eq!(true, json_reader.next_bool()?);
    assert_eq!(false, json_reader.next_bool()?);
    json_reader.next_null()?;

    json_reader.end_array()?;
    json_reader.end_object()?;
    json_reader.consume_trailing_whitespace()?;
    Ok(())
}

#[test]
fn read_string_escape_sequences() -> TestResult {
    let json = r#"["\n", "\t a", "a \u1234", "a \uDBFF\uDFFF b"]"#;
    let mut json_reader = new_reader_without_path(json);

    json_reader.begin_array()?;
    assert_eq!("\n", json_reader.next_str()?);
    assert_eq!("\t a", json_reader.next_str()?);
    assert_eq!("a \u{1234}", json_reader.next_str()?);
    assert_eq!("a \u{10FFFF} b", json_reader.next_str()?);

    json_reader.end_array()?;
    json_reader.consume_trailing_whitespace()?;
    Ok(())
}

#[test]
fn string_value_reader() -> TestResult {
    let repetition_count = 100;
    let json_string_value = "\\n \\t a \\u1234 \\uDBFF\\uDFFF \u{10FFFF}".repeat(repetition_count);
    let expected_string_value = "\n \t a \u{1234} \u{10FFFF} \u{10FFFF}".repeat(repetition_count);
    let json = format!("\"{json_string_value}\"");
    let mut json_reader = new_reader_without_path(&json);

    let mut string_output = String::with_capacity(expected_string_value.len());
    let mut string_value_reader = json_reader.next_string_reader()?;
    string_value_reader.read_to_string(&mut string_output)?;
    drop(string_value_reader);

    json_reader.consume_trailing_whitespace()?;
    assert_eq!(expected_string_value, string_output);
    Ok(())
}

#[test]
fn reader_alloc_test_transfer_to() -> TestResult {
    let inner_json = r#"{"a":[{"b":1,"c":[[],[2,{"d":3,"e":"some string value"}]]}],"f":true}"#;
    let json = "{\"outer-ignored\": 1, \"outer\":[\"ignored\", ".to_owned() + inner_json + "]}";
    let mut json_reader = new_reader_without_path(&json);
    let mut json_writer = CompactWriter::new();

    json_reader.seek_to(&[member("outer"), item(1)])?;
    json_reader.transfer_to(&mut json_writer)?;
    json_reader.skip_to_top_level()?;
    json_reader.consume_trailing_whitespace()?;

    assert_eq!(inner_json, json_writer.json);
    Ok(())
}

#[test]
fn transfer() -> TestResult {
    let json = "[true, 123, {\"name1\": \"value1\", \"name2\": null}, false]";
    let mut json_reader = new_reader(json);
    let mut json_writer = CompactWriter::new();
    json_reader.transfer_to(&mut json_writer)?;
    json_reader.consume_trailing_whitespace()?;

    assert_eq!(
        "[true,123,{\"name1\":\"value1\",\"name2\":null},false]",
        json_writer.json
    );
    Ok(())
}
