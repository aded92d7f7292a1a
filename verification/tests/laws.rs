//! Properties of the JSON reader, checked for concrete documents.

use struson::error::{
    IoError, JsonSyntaxError, ReaderError, Stop, SyntaxErrorKind, UnexpectedStructureKind,
    ValueType,
};
use struson::model::Operation;
use struson::position::{JsonPathPiece, JsonReaderPosition, LinePosition};
use struson::reader::input::{FillAction, ReadEvent};
use struson::reader::string_value::StringReadStop;
use struson::reader::transferring::TransferAction;
use struson::reader::JsonStreamReader;
use struson::settings::ReaderSettings;
use struson::usage::Misuse;

/// Provides a document in pieces of a fixed size.
struct Pieces<'a> {
    remaining: &'a [u8],
    piece_size: usize,
}

struct Feed<'a> {
    reader: JsonStreamReader<Pieces<'a>>,
}

impl<'a> Feed<'a> {
    fn new(json: &'a [u8], piece_size: usize, settings: ReaderSettings) -> Self {
        let pieces = Pieces {
            remaining: json,
            piece_size,
        };
        Feed {
            reader: JsonStreamReader::new_custom(pieces, settings),
        }
    }

    fn fill(&mut self) {
        let capacity = self.reader.read_capacity();
        let pieces = self.reader.reader_mut();
        let count = pieces
            .piece_size
            .min(capacity)
            .min(pieces.remaining.len());
        let (data, remaining) = pieces.remaining.split_at(count);
        pieces.remaining = remaining;
        assert!(self.reader.accepts(count));
        assert_eq!(
            FillAction::Continue,
            self.reader.fill_buffer(ReadEvent::Data(data))
        );
    }

    fn run<T>(
        &mut self,
        operation: Operation,
        call: impl Fn(&mut JsonStreamReader<Pieces<'a>>) -> Result<T, Stop>,
    ) -> Result<T, ReaderError> {
        assert_eq!(None, self.reader.check_usage(operation));
        loop {
            match call(&mut self.reader) {
                Ok(value) => return Ok(value),
                Err(Stop::Error(error)) => return Err(error),
                Err(Stop::NeedsInput) => {
                    assert_eq!(None, self.reader.check_usage(operation));
                    self.fill();
                }
            }
        }
    }

    fn peek(&mut self) -> Result<ValueType, ReaderError> {
        self.run(Operation::Peek, |r| r.peek())
    }

    fn has_next(&mut self) -> Result<bool, ReaderError> {
        self.run(Operation::HasNext, |r| r.has_next())
    }

    fn begin_array(&mut self) -> Result<(), ReaderError> {
        self.run(Operation::BeginArray, |r| r.begin_array())
    }

    fn end_array(&mut self) -> Result<(), ReaderError> {
        self.run(Operation::EndArray, |r| r.end_array())
    }

    fn begin_object(&mut self) -> Result<(), ReaderError> {
        self.run(Operation::BeginObject, |r| r.begin_object())
    }

    fn end_object(&mut self) -> Result<(), ReaderError> {
        self.run(Operation::EndObject, |r| r.end_object())
    }

    fn next_name(&mut self) -> Result<String, ReaderError> {
        self.run(Operation::NextName, |r| r.next_name_owned())
    }

    fn next_string(&mut self) -> Result<String, ReaderError> {
        self.run(Operation::NextString, |r| r.next_string())
    }

    fn next_number(&mut self) -> Result<String, ReaderError> {
        self.run(Operation::NextNumber, |r| r.next_number_as_string())
    }

    fn next_bool(&mut self) -> Result<bool, ReaderError> {
        self.run(Operation::NextBool, |r| r.next_bool())
    }

    fn next_null(&mut self) -> Result<(), ReaderError> {
        self.run(Operation::NextNull, |r| r.next_null())
    }

    fn skip_name(&mut self) -> Result<(), ReaderError> {
        self.run(Operation::SkipName, |r| r.skip_name())
    }

    fn skip_value(&mut self) -> Result<(), ReaderError> {
        self.run(Operation::SkipValue, |r| r.skip_value())
    }

    fn skip_to_top_level(&mut self) -> Result<(), ReaderError> {
        self.run(Operation::SkipToTopLevel, |r| r.skip_to_top_level())
    }

    fn consume_trailing_whitespace(&mut self) -> Result<(), ReaderError> {
        self.run(Operation::ConsumeTrailingWhitespace, |r| {
            r.consume_trailing_whitespace()
        })
    }

    fn transfer(&mut self) -> Result<Vec<TransferAction>, ReaderError> {
        let mut actions = Vec::new();
        loop {
            let action = self.run(Operation::TransferTo, |r| r.transfer_next())?;
            if action == TransferAction::Finished {
                return Ok(actions);
            }
            actions.push(action);
        }
    }

    /// Reads a string value in a streaming way, with the given number of bytes for each read.
    fn stream_string(&mut self, limit: usize) -> Result<Vec<u8>, ReaderError> {
        let mut string_reader = self.run(Operation::NextStringReader, |r| r.next_string_reader())?;
        let mut all_bytes = Vec::new();
        loop {
            let mut bytes = Vec::new();
            loop {
                match string_reader.read(&mut self.reader, &mut bytes, limit) {
                    Ok(()) => break,
                    Err(StringReadStop::NeedsInput) => self.fill(),
                    Err(StringReadStop::Error(error)) => return Err(error),
                    Err(stop) => panic!("Unexpected: {stop:?}"),
                }
            }
            if bytes.is_empty() {
                return Ok(all_bytes);
            }
            assert!(bytes.len() <= limit);
            all_bytes.extend(bytes);
        }
    }

    fn position(&self) -> JsonReaderPosition {
        self.reader.current_position(true)
    }

    fn data_pos(&self) -> u64 {
        self.position().data_pos.unwrap()
    }
}

fn feed(json: &str) -> Feed<'_> {
    Feed::new(json.as_bytes(), usize::MAX, ReaderSettings::default())
}

#[derive(Debug, PartialEq)]
enum Json {
    Null,
    Bool(bool),
    Number(String),
    Text(String),
    Array(Vec<Json>),
    Object(Vec<(String, Json)>),
}

fn number(text: &str) -> Json {
    Json::Number(text.to_owned())
}

fn text(text: &str) -> Json {
    Json::Text(text.to_owned())
}

fn read_json(feed: &mut Feed<'_>) -> Result<Json, ReaderError> {
    Ok(match feed.peek()? {
        ValueType::Null => {
            feed.next_null()?;
            Json::Null
        }
        ValueType::Boolean => Json::Bool(feed.next_bool()?),
        ValueType::Number => Json::Number(feed.next_number()?),
        ValueType::String => Json::Text(feed.next_string()?),
        ValueType::Array => {
            let mut items = Vec::new();
            feed.begin_array()?;
            while feed.has_next()? {
                items.push(read_json(feed)?);
            }
            feed.end_array()?;
            Json::Array(items)
        }
        ValueType::Object => {
            let mut members = Vec::new();
            feed.begin_object()?;
            while feed.has_next()? {
                let name = feed.next_name()?;
                members.push((name, read_json(feed)?));
            }
            feed.end_object()?;
            Json::Object(members)
        }
    })
}

fn lenient() -> ReaderSettings {
    ReaderSettings {
        allow_comments: true,
        allow_trailing_comma: true,
        ..Default::default()
    }
}

const DOCUMENT: &str = "\r\n { \"a\\u00e9\\uD83D\\uDE00\" : [ 1 , -2.50e+7, true,false , null ] ,\"\u{20AC}\":{},\"\": [[], {\"x\": \"\\\"\\\\\\/\\b\\f\\n\\r\\t\u{10FFFF}\"}] }\t";

fn document() -> Json {
    Json::Object(vec![
        (
            "a\u{e9}\u{1F600}".to_owned(),
            Json::Array(vec![
                number("1"),
                number("-2.50e+7"),
                Json::Bool(true),
                Json::Bool(false),
                Json::Null,
            ]),
        ),
        ("\u{20AC}".to_owned(), Json::Object(Vec::new())),
        (
            String::new(),
            Json::Array(vec![
                Json::Array(Vec::new()),
                Json::Object(vec![(
                    "x".to_owned(),
                    text("\"\\/\u{8}\u{c}\n\r\t\u{10FFFF}"),
                )]),
            ]),
        ),
    ])
}

#[test]
fn document_is_read_back() -> Result<(), ReaderError> {
    let mut reader = feed(DOCUMENT);
    assert_eq!(document(), read_json(&mut reader)?);
    reader.consume_trailing_whitespace()?;
    Ok(())
}

#[test]
fn document_is_read_back_from_any_pieces() -> Result<(), ReaderError> {
    for piece_size in 1..=DOCUMENT.len() {
        let mut reader = Feed::new(DOCUMENT.as_bytes(), piece_size, ReaderSettings::default());
        assert_eq!(document(), read_json(&mut reader)?);
        reader.consume_trailing_whitespace()?;
        assert_eq!(DOCUMENT.len() as u64, reader.data_pos());
    }
    Ok(())
}

#[test]
fn results_do_not_depend_on_pieces() {
    let documents: [&[u8]; 16] = [
        b"[1, 2, @]",
        b"{\"a\": tru}",
        b"[\"\\uD800\"]",
        b"[\"\\uD83D\\uDE0\"]",
        b"[\"\xF0\x9F\x98\"]",
        b"[\"\xC3\xA9\xFF\"]",
        b"[1.5e, 2]",
        b"[1e100]",
        b"[1,]",
        b"{\"a\" 1}",
        b"[truex]",
        b"/* a \xE2\x82\xAC */ [ // b\r\n 1, ] // c",
        b"/* a * /",
        b"[ /",
        b"[\"a\nb\"]",
        b"",
    ];
    for json in documents {
        let mut whole = Feed::new(json, usize::MAX, lenient());
        let expected = read_json(&mut whole);
        for piece_size in 1..=json.len() {
            let mut pieces = Feed::new(json, piece_size, lenient());
            assert_eq!(expected, read_json(&mut pieces));
            assert_eq!(whole.position(), pieces.position());
        }
    }
}

#[test]
fn skipping_and_transferring_do_not_depend_on_pieces() -> Result<(), ReaderError> {
    let mut whole = feed(DOCUMENT);
    let expected_actions = whole.transfer()?;
    for piece_size in 1..=DOCUMENT.len() {
        let mut reader = Feed::new(DOCUMENT.as_bytes(), piece_size, ReaderSettings::default());
        reader.skip_value()?;
        assert_eq!(whole.position(), reader.position());

        let mut reader = Feed::new(DOCUMENT.as_bytes(), piece_size, ReaderSettings::default());
        assert_eq!(expected_actions, reader.transfer()?);
        assert_eq!(whole.position(), reader.position());
    }
    Ok(())
}

#[test]
fn tracking_the_path_only_affects_locations() {
    let settings = ReaderSettings {
        track_path: false,
        ..Default::default()
    };
    let mut reader = Feed::new(DOCUMENT.as_bytes(), usize::MAX, settings);
    assert_eq!(Ok(document()), read_json(&mut reader));
    assert_eq!(None, reader.position().path);

    let mut tracking = feed("{\"a\": [0, nul]}");
    let mut not_tracking = Feed::new(
        b"{\"a\": [0, nul]}",
        usize::MAX,
        ReaderSettings {
            track_path: false,
            ..Default::default()
        },
    );
    match (read_json(&mut tracking), read_json(&mut not_tracking)) {
        (Err(ReaderError::SyntaxError(expected)), Err(ReaderError::SyntaxError(error))) => {
            assert_eq!(expected.kind, error.kind);
            assert_eq!(expected.location.line_pos, error.location.line_pos);
            assert_eq!(expected.location.data_pos, error.location.data_pos);
            assert_eq!(
                Some(vec![
                    JsonPathPiece::ObjectMember("a".to_owned()),
                    JsonPathPiece::ArrayItem(1)
                ]),
                expected.location.path
            );
            assert_eq!(None, error.location.path);
        }
        results => panic!("Unexpected results: {results:?}"),
    }
}

#[test]
fn streamed_string_equals_string() -> Result<(), ReaderError> {
    let json = "\"a\\u20ACb\u{10FFFF}\\uD83D\\uDE00\\n\"";
    let expected = "a\u{20AC}b\u{10FFFF}\u{1F600}\n";
    let mut reader = feed(json);
    assert_eq!(expected, reader.next_string()?);
    for piece_size in [1, 2, 5, usize::MAX] {
        for limit in 1..20 {
            let mut streaming = Feed::new(json.as_bytes(), piece_size, ReaderSettings::default());
            assert_eq!(expected.as_bytes(), streaming.stream_string(limit)?);
            assert_eq!(reader.position(), streaming.position());
            assert!(!streaming.reader.is_string_value_reader_active());
        }
    }
    Ok(())
}

#[test]
fn reading_zero_bytes_has_no_effect() -> Result<(), ReaderError> {
    let mut reader = feed("\"\u{10FFFF}\"");
    let mut string_reader = reader.run(Operation::NextStringReader, |r| r.next_string_reader())?;
    let mut bytes = Vec::new();
    assert_eq!(Ok(()), string_reader.read(&mut reader.reader, &mut bytes, 0));
    assert!(bytes.is_empty());
    assert_eq!(Ok(()), string_reader.read(&mut reader.reader, &mut bytes, 3));
    assert_eq!(b"\xF4\x8F\xBF".to_vec(), bytes);
    assert!(reader.reader.is_string_value_reader_active());
    // The remainder of the char and the end of the value
    let mut bytes = Vec::new();
    assert_eq!(Ok(()), string_reader.read(&mut reader.reader, &mut bytes, 2));
    assert_eq!(b"\xBF".to_vec(), bytes);
    assert!(!reader.reader.is_string_value_reader_active());
    Ok(())
}

#[test]
fn transferred_pieces_make_up_the_string() -> Result<(), ReaderError> {
    let value = "ab\u{10FFFF}\u{E9}\n".repeat(100);
    let json = format!("\"{}\"", value.replace('\n', "\\n"));
    let actions = feed(&json).transfer()?;
    assert_eq!(Some(&TransferAction::BeginString), actions.first());
    let mut result = String::new();
    for (index, action) in actions.iter().enumerate().skip(1) {
        match action {
            TransferAction::StringPiece { text, last } => {
                assert_eq!(index == actions.len() - 1, *last);
                assert!(text.len() <= 64);
                assert!(*last || text.len() > 60);
                result.push_str(text);
            }
            other => panic!("Unexpected action: {other:?}"),
        }
    }
    assert_eq!(value, result);
    Ok(())
}

#[test]
fn transferred_actions() -> Result<(), ReaderError> {
    let mut reader = feed("{\"a\": [1, true, null], \"b\": \"\"} ");
    assert_eq!(
        vec![
            TransferAction::BeginObject,
            TransferAction::Name("a".to_owned()),
            TransferAction::BeginArray,
            TransferAction::Number("1".to_owned()),
            TransferAction::Bool(true),
            TransferAction::Null,
            TransferAction::EndArray,
            TransferAction::Name("b".to_owned()),
            TransferAction::BeginString,
            TransferAction::StringPiece {
                text: String::new(),
                last: true
            },
            TransferAction::EndObject,
        ],
        reader.transfer()?
    );
    assert_eq!(Some(Vec::new()), reader.position().path);
    reader.consume_trailing_whitespace()
}

#[test]
fn nesting_is_limited() {
    for limit in 0..4_u32 {
        let settings = ReaderSettings {
            max_nesting_depth: Some(limit),
            ..Default::default()
        };
        let mut reader = Feed::new(b"[[[[]]]]", usize::MAX, settings);
        for _ in 0..limit {
            assert_eq!(Ok(()), reader.begin_array());
        }
        let position = reader.position();
        match reader.begin_array() {
            Err(ReaderError::MaxNestingDepthExceeded {
                max_nesting_depth,
                location,
            }) => {
                assert_eq!(limit, max_nesting_depth);
                assert_eq!(position, location);
            }
            result => panic!("Unexpected result: {result:?}"),
        }
    }
}

#[test]
fn end_undoes_begin() -> Result<(), ReaderError> {
    let mut reader = feed("[[], {}, 3]");
    reader.begin_array()?;
    assert_eq!(
        Some(vec![JsonPathPiece::ArrayItem(0)]),
        reader.position().path
    );
    reader.begin_array()?;
    assert_eq!(
        Some(vec![JsonPathPiece::ArrayItem(0), JsonPathPiece::ArrayItem(0)]),
        reader.position().path
    );
    reader.end_array()?;
    assert_eq!(
        Some(vec![JsonPathPiece::ArrayItem(1)]),
        reader.position().path
    );
    reader.begin_object()?;
    assert_eq!(
        Some(vec![
            JsonPathPiece::ArrayItem(1),
            JsonPathPiece::ObjectMember("<?>".to_owned())
        ]),
        reader.position().path
    );
    reader.end_object()?;
    assert_eq!(
        Some(vec![JsonPathPiece::ArrayItem(2)]),
        reader.position().path
    );
    assert_eq!("3", reader.next_number()?);
    reader.end_array()?;
    assert_eq!(Some(Vec::new()), reader.position().path);
    Ok(())
}

#[test]
fn skipping_equals_reading() -> Result<(), ReaderError> {
    for json in [
        "[null, 1]",
        "[true, 1]",
        "[-0.5E-3, 1]",
        "[\"a\\u0041\u{20AC}\", 1]",
        "[[1, [\"]\"]], 1]",
        "[{\"a\": {\"b\": []}}, 1]",
    ] {
        let mut reading = feed(json);
        reading.begin_array()?;
        read_json(&mut reading)?;
        let mut skipping = feed(json);
        skipping.begin_array()?;
        skipping.skip_value()?;
        assert_eq!(reading.position(), skipping.position());
        assert_eq!("1", skipping.next_number()?);
        skipping.end_array()?;
        skipping.consume_trailing_whitespace()?;
    }

    let json = "{\"a\\n\u{E9}\": 1}";
    let mut reading = feed(json);
    reading.begin_object()?;
    assert_eq!("a\n\u{E9}", reading.next_name()?);
    let mut skipping = feed(json);
    skipping.begin_object()?;
    skipping.skip_name()?;
    assert_eq!(reading.position(), skipping.position());
    Ok(())
}

#[test]
fn skipping_to_top_level_leaves_everything() -> Result<(), ReaderError> {
    let mut reader = feed("[1, {\"a\": [2, 3], \"b\": 4}] ");
    reader.begin_array()?;
    reader.skip_value()?;
    reader.begin_object()?;
    assert_eq!("a", reader.next_name()?);
    reader.begin_array()?;
    reader.skip_to_top_level()?;
    assert_eq!(Some(Vec::new()), reader.position().path);
    assert_eq!(26, reader.data_pos());
    reader.consume_trailing_whitespace()
}

#[test]
fn peeking_is_harmless() -> Result<(), ReaderError> {
    let mut reader = feed(" [ 1 , \"a\" ] ");
    assert_eq!(ValueType::Array, reader.peek()?);
    assert_eq!(ValueType::Array, reader.peek()?);
    reader.begin_array()?;
    assert!(reader.has_next()?);
    let position = reader.position();
    assert!(reader.has_next()?);
    assert_eq!(ValueType::Number, reader.peek()?);
    assert_eq!(position, reader.position());
    assert_eq!("1", reader.next_number()?);
    assert_eq!("a", reader.next_string()?);
    assert!(!reader.has_next()?);
    assert!(!reader.has_next()?);
    reader.end_array()
}

#[test]
fn wrong_type_consumes_nothing() -> Result<(), ReaderError> {
    let mut reader = feed(" 12 ");
    reader.peek()?;
    let position = reader.position();
    match reader.next_string() {
        Err(ReaderError::UnexpectedValueType {
            expected: ValueType::String,
            actual: ValueType::Number,
            location,
        }) => assert_eq!(position, location),
        result => panic!("Unexpected result: {result:?}"),
    }
    assert_eq!(position, reader.position());
    assert_eq!("12", reader.next_number()?);
    reader.consume_trailing_whitespace()
}

#[test]
fn numbers_follow_the_grammar() {
    for json in ["0", "-0", "10", "0.0", "1.25", "1e0", "1E+5", "-9.9e-99"] {
        assert_eq!(Ok(json.to_owned()), feed(json).next_number());
    }
    for json in ["-", "00", "-01", "1.", "1.e1", "1e", "1e+", "1.2.3", "1-1"] {
        match feed(json).next_number() {
            Err(ReaderError::SyntaxError(JsonSyntaxError { kind, .. })) => {
                assert_eq!(SyntaxErrorKind::MalformedNumber, kind)
            }
            result => panic!("Unexpected result: {result:?}"),
        }
    }
}

#[test]
fn numbers_are_restricted() {
    let longest = "1".repeat(100);
    for json in [longest.as_str(), "1e99", "1e-99", "1e0000000000000099"] {
        assert_eq!(Ok(json.to_owned()), feed(json).next_number());
    }
    let too_long = "1".repeat(101);
    for json in [too_long.as_str(), "1e100", "1e-100", "1e0100"] {
        match feed(json).next_number() {
            Err(ReaderError::UnsupportedNumberValue { number, location }) => {
                assert_eq!(json, number);
                assert_eq!(Some(0), location.data_pos);
            }
            result => panic!("Unexpected result: {result:?}"),
        }
        assert_eq!(Ok(()), feed(json).skip_value());
        let settings = ReaderSettings {
            restrict_number_values: false,
            ..Default::default()
        };
        let mut reader = Feed::new(json.as_bytes(), usize::MAX, settings);
        assert_eq!(Ok(json.to_owned()), reader.next_number());
    }
}

#[test]
fn line_breaks() -> Result<(), ReaderError> {
    for piece_size in [1, usize::MAX] {
        let json = b"\r\n\n\r[\r\n\r\r 1";
        let mut reader = Feed::new(json, piece_size, ReaderSettings::default());
        reader.begin_array()?;
        assert!(reader.has_next()?);
        assert_eq!(
            Some(LinePosition { line: 6, column: 1 }),
            reader.position().line_pos
        );
        assert_eq!(Some(10), reader.position().data_pos);
    }
    Ok(())
}

#[test]
fn every_syntax_error() {
    let cases: [(&str, SyntaxErrorKind, u64); 21] = [
        ("tru", SyntaxErrorKind::InvalidLiteral, 0),
        ("nullx", SyntaxErrorKind::TrailingDataAfterLiteral, 0),
        ("}", SyntaxErrorKind::UnexpectedClosingBracket, 0),
        ("[,", SyntaxErrorKind::UnexpectedComma, 1),
        ("[1 2", SyntaxErrorKind::MissingComma, 3),
        ("[1,]", SyntaxErrorKind::TrailingCommaNotEnabled, 2),
        ("[:", SyntaxErrorKind::UnexpectedColon, 1),
        ("{\"a\" 1", SyntaxErrorKind::MissingColon, 5),
        ("1.x", SyntaxErrorKind::MalformedNumber, 0),
        ("1x", SyntaxErrorKind::TrailingDataAfterNumber, 1),
        ("{1", SyntaxErrorKind::ExpectingMemberNameOrObjectEnd, 1),
        ("#", SyntaxErrorKind::MalformedJson, 0),
        ("\"\t\"", SyntaxErrorKind::NotEscapedControlCharacter, 1),
        ("\"\\a\"", SyntaxErrorKind::UnknownEscapeSequence, 1),
        ("\"\\u00\"", SyntaxErrorKind::MalformedEscapeSequence, 1),
        (
            "\"\\uDC00\"",
            SyntaxErrorKind::UnpairedSurrogatePairEscapeSequence,
            1,
        ),
        ("[", SyntaxErrorKind::IncompleteDocument, 1),
        ("1 2", SyntaxErrorKind::TrailingData, 2),
        ("/", SyntaxErrorKind::CommentsNotEnabled, 0),
        ("/a", SyntaxErrorKind::IncompleteComment, 1),
        ("/**", SyntaxErrorKind::BlockCommentNotClosed, 3),
    ];
    for (json, kind, data_pos) in cases {
        let comments = matches!(
            kind,
            SyntaxErrorKind::IncompleteComment | SyntaxErrorKind::BlockCommentNotClosed
        );
        let settings = ReaderSettings {
            allow_comments: comments,
            ..Default::default()
        };
        let mut reader = Feed::new(json.as_bytes(), usize::MAX, settings);
        let result = read_json(&mut reader).and_then(|_| reader.consume_trailing_whitespace());
        match result {
            Err(ReaderError::SyntaxError(error)) => {
                assert_eq!(kind, error.kind, "For input: {json}");
                assert_eq!(Some(data_pos), error.location.data_pos, "For input: {json}");
                assert_eq!(format!("{kind:?}"), kind.name());
            }
            result => panic!("Unexpected result for {json}: {result:?}"),
        }
    }
}

#[test]
fn other_errors() -> Result<(), ReaderError> {
    let mut reader = feed("[]");
    reader.begin_array()?;
    match reader.next_null() {
        Err(ReaderError::UnexpectedStructure { kind, .. }) => {
            assert_eq!(UnexpectedStructureKind::FewerElementsThanExpected, kind)
        }
        result => panic!("Unexpected result: {result:?}"),
    }
    let mut reader = feed("[1]");
    reader.begin_array()?;
    match reader.end_array() {
        Err(ReaderError::UnexpectedStructure { kind, .. }) => {
            assert_eq!(UnexpectedStructureKind::MoreElementsThanExpected, kind)
        }
        result => panic!("Unexpected result: {result:?}"),
    }
    let mut reader = Feed::new(b"\"\xC3\x28\"", usize::MAX, ReaderSettings::default());
    match reader.next_string() {
        Err(ReaderError::IoError { error, location }) => {
            assert_eq!(IoError::InvalidUtf8, error);
            assert_eq!("invalid UTF-8 data", error.message());
            assert_eq!(Some(1), location.data_pos);
        }
        result => panic!("Unexpected result: {result:?}"),
    }
    Ok(())
}

#[test]
fn source_error_ends_operation() {
    let mut reader = JsonStreamReader::new(());
    assert_eq!(Err(Stop::NeedsInput), reader.peek());
    assert_eq!(FillAction::Continue, reader.fill_buffer(ReadEvent::Data(b" [")));
    assert_eq!(Ok(ValueType::Array), reader.peek());
    assert_eq!(Ok(()), reader.begin_array());
    assert_eq!(Err(Stop::NeedsInput), reader.has_next());
    assert_eq!(
        Some(Misuse::OperationInProgress),
        reader.check_usage(Operation::SkipValue)
    );
    assert_eq!(FillAction::Retry, reader.fill_buffer(ReadEvent::Interrupted));
    match reader.fill_buffer(ReadEvent::Failed) {
        FillAction::Fail(ReaderError::IoError { error, location }) => {
            assert_eq!(IoError::Source, error);
            assert_eq!("reading from the source failed", error.message());
            assert_eq!(Some(2), location.data_pos);
        }
        action => panic!("Unexpected action: {action:?}"),
    }
    assert_eq!(None, reader.check_usage(Operation::SkipValue));
}

#[test]
fn abandoned_operation() -> Result<(), Stop> {
    let mut reader = JsonStreamReader::new(());
    reader.fill_buffer(ReadEvent::Data(b"[1, 2"));
    reader.begin_array()?;
    assert_eq!("1", reader.next_number_as_str()?);
    assert_eq!(Err(Stop::NeedsInput), reader.skip_value());
    assert_eq!(
        Some(Misuse::OperationInProgress),
        reader.check_usage(Operation::HasNext)
    );
    reader.abandon();
    assert_eq!(None, reader.check_usage(Operation::HasNext));
    Ok(())
}

#[test]
fn capacity_for_data() {
    let mut reader = JsonStreamReader::new(());
    assert_eq!(1024, reader.read_capacity());
    assert!(reader.accepts(1024));
    assert!(!reader.accepts(1025));
    reader.fill_buffer(ReadEvent::Data(&[b' '; 24]));
    assert_eq!(1000, reader.read_capacity());
    assert!(reader.accepts(1000));
    assert!(!reader.accepts(1001));
    assert_eq!(Err(Stop::NeedsInput), reader.peek());
    assert_eq!(1024, reader.read_capacity());
    reader.fill_buffer(ReadEvent::Data(&[]));
    assert!(!reader.accepts(0));
    assert!(reader.peek().is_err());
}

#[test]
fn every_misuse() -> Result<(), ReaderError> {
    fn assert_misuse(reader: &Feed<'_>, operation: Operation, expected: Misuse) {
        assert_eq!(Some(expected), reader.reader.check_usage(operation));
    }

    let reader = feed("1");
    assert_misuse(&reader, Operation::NextName, Misuse::NameNotExpected);
    assert_misuse(&reader, Operation::SkipName, Misuse::NameNotExpected);
    assert_misuse(&reader, Operation::EndArray, Misuse::EndArrayOutsideArray);
    assert_misuse(&reader, Operation::EndObject, Misuse::EndObjectOutsideObject);
    assert_misuse(&reader, Operation::HasNext, Misuse::HasNextBeforeTopLevel);
    assert_misuse(
        &reader,
        Operation::ConsumeTrailingWhitespace,
        Misuse::TrailingWhitespaceBeforeTopLevel,
    );
    assert_eq!(None, reader.reader.check_usage(Operation::SkipToTopLevel));

    let mut reader = feed("1");
    reader.skip_value()?;
    for operation in [
        Operation::Peek,
        Operation::BeginArray,
        Operation::BeginObject,
        Operation::NextString,
        Operation::NextStringReader,
        Operation::NextNumber,
        Operation::NextBool,
        Operation::NextNull,
        Operation::SkipValue,
        Operation::TransferTo,
    ] {
        assert_misuse(&reader, operation, Misuse::PeekBehindTopLevel);
    }
    assert_misuse(
        &reader,
        Operation::HasNext,
        Misuse::HasNextMultipleTopLevelDisabled,
    );

    let mut reader = feed("{\"a\": \"b\"}");
    reader.begin_object()?;
    assert_misuse(&reader, Operation::Peek, Misuse::PeekExpectingName);
    for operation in [
        Operation::BeginArray,
        Operation::BeginObject,
        Operation::NextString,
        Operation::NextStringReader,
        Operation::NextNumber,
        Operation::NextBool,
        Operation::NextNull,
    ] {
        assert_misuse(&reader, operation, Misuse::ReadValueExpectingName);
    }
    assert_misuse(&reader, Operation::SkipValue, Misuse::SkipValueExpectingName);
    assert_misuse(&reader, Operation::TransferTo, Misuse::TransferExpectingName);
    assert_misuse(
        &reader,
        Operation::ConsumeTrailingWhitespace,
        Misuse::TrailingWhitespaceInsideTopLevel,
    );
    reader.skip_name()?;
    assert_misuse(&reader, Operation::EndObject, Misuse::EndObjectExpectingValue);
    assert_misuse(&reader, Operation::HasNext, Misuse::HasNextExpectingValue);

    reader.run(Operation::NextStringReader, |r| r.next_string_reader())?;
    assert_misuse(&reader, Operation::Peek, Misuse::PeekWithStringReader);
    assert_misuse(
        &reader,
        Operation::SkipToTopLevel,
        Misuse::SkipToTopLevelWithStringReader,
    );
    assert_misuse(
        &reader,
        Operation::ConsumeTrailingWhitespace,
        Misuse::TrailingWhitespaceWithStringReader,
    );
    assert_eq!(
        "Incorrect reader usage: Cannot peek when string value reader is active",
        Misuse::PeekWithStringReader.message()
    );
    Ok(())
}

#[test]
fn multiple_top_level_values() -> Result<(), ReaderError> {
    let settings = ReaderSettings {
        allow_multiple_top_level: true,
        ..Default::default()
    };
    let mut reader = Feed::new(b"1 [] \"a\" ", usize::MAX, settings);
    assert_eq!("1", reader.next_number()?);
    assert!(reader.has_next()?);
    assert_eq!(Json::Array(Vec::new()), read_json(&mut reader)?);
    assert!(reader.has_next()?);
    assert_eq!("a", reader.next_string()?);
    assert!(!reader.has_next()?);
    reader.consume_trailing_whitespace()
}

#[test]
fn comments_and_trailing_commas_are_ignored() -> Result<(), ReaderError> {
    let json = b"/* a */ [ // b\n 1 /**/ , {\"a\" /* : */ : 2 , } , ] // end";
    let mut reader = Feed::new(json, usize::MAX, lenient());
    assert_eq!(
        Json::Array(vec![
            number("1"),
            Json::Object(vec![("a".to_owned(), number("2"))])
        ]),
        read_json(&mut reader)?
    );
    reader.consume_trailing_whitespace()
}

#[test]
fn only_documents_are_accepted() {
    fn is_accepted(json: &str, settings: ReaderSettings) -> bool {
        let mut reader = Feed::new(json.as_bytes(), usize::MAX, settings);
        read_json(&mut reader).is_ok() && reader.consume_trailing_whitespace().is_ok()
    }

    for json in ["[1]", " {\"a\" : [ ] }\n", "\"\\/\"", "-0.0E+00"] {
        assert!(is_accepted(json, ReaderSettings::default()), "{json}");
        assert!(is_accepted(json, lenient()), "{json}");
    }
    for json in ["[1,]", "{\"a\":1 , }", "/**/1", "1//", "[//\n]", "[1/* // */, /***/]"] {
        assert!(!is_accepted(json, ReaderSettings::default()), "{json}");
        assert!(is_accepted(json, lenient()), "{json}");
    }
    for json in [
        "", "[", "[,]", "[1,,]", "[1 2]", "{,}", "{\"a\"}", "{\"a\":}", "{a:1}", "[1}", "1 2", "1,",
        "01", "1.", "tru", "'a'", "\"a", "\"\\x\"", "\"\\uDC00\"", "/*/1", "/* 1", "1 /", "1\u{C}",
    ] {
        assert!(!is_accepted(json, ReaderSettings::default()), "{json}");
        assert!(!is_accepted(json, lenient()), "{json}");
    }
}

fn location_of_failure(reader: &mut JsonStreamReader<()>) -> (u64, u64, u64) {
    match reader.fill_buffer(ReadEvent::Failed) {
        FillAction::Fail(ReaderError::IoError {
            error: IoError::Source,
            location,
        }) => {
            let line_pos = location.line_pos.unwrap();
            (line_pos.line, line_pos.column, location.data_pos.unwrap())
        }
        action => panic!("Unexpected action: {action:?}"),
    }
}

#[test]
fn source_error_within_comment() {
    // The start of a comment and an asterisk are counted although the next byte is unknown
    let inputs: [(&[u8], (u64, u64, u64)); 8] = [
        (b" /", (0, 2, 2)),
        (b"//", (0, 2, 2)),
        (b"/*", (0, 2, 2)),
        (b"/* *", (0, 4, 4)),
        (b"/***", (0, 4, 4)),
        (b"/*\r\n*", (1, 1, 5)),
        (b"/*a\xE2\x82", (0, 3, 3)),
        (b"/**/", (0, 4, 4)),
    ];
    for (data, expected) in inputs {
        let mut reader = JsonStreamReader::new_custom((), lenient());
        reader.fill_buffer(ReadEvent::Data(data));
        assert_eq!(Err(Stop::NeedsInput), reader.peek());
        assert_eq!(expected, location_of_failure(&mut reader));

        // What was received before is consumed, and reading goes on behind it
        assert_eq!(1024, reader.read_capacity());
        assert_eq!(FillAction::Continue, reader.fill_buffer(ReadEvent::Data(b" []")));
        assert_eq!(Ok(ValueType::Array), reader.peek());
        assert_eq!(
            Some(expected.2 + 1),
            reader.current_position(false).data_pos
        );
    }
}

#[test]
fn source_error_within_token() {
    let mut reader = JsonStreamReader::new(());
    reader.fill_buffer(ReadEvent::Data(b" tru"));
    assert_eq!(Err(Stop::NeedsInput), reader.next_bool());
    assert_eq!((0, 1, 1), location_of_failure(&mut reader));
    assert_eq!(1024, reader.read_capacity());
    reader.fill_buffer(ReadEvent::Data(b"[\"a\\u00"));
    assert_eq!(Ok(()), reader.begin_array());
    assert_eq!(Err(Stop::NeedsInput), reader.next_string());
    assert_eq!((0, 4, 4), location_of_failure(&mut reader));
    assert_eq!(1024, reader.read_capacity());

    // The string value starts with what follows
    reader.fill_buffer(ReadEvent::Data(b"\"\xE2\x82"));
    assert_eq!(Err(Stop::NeedsInput), reader.skip_value());
    assert_eq!((0, 5, 5), location_of_failure(&mut reader));

    // Without an operation in progress nothing is lost
    let mut reader = JsonStreamReader::new(());
    reader.fill_buffer(ReadEvent::Data(b"/"));
    assert_eq!((0, 0, 0), location_of_failure(&mut reader));
    assert_eq!(1023, reader.read_capacity());
}

#[test]
fn source_error_within_streamed_string() {
    let mut reader = JsonStreamReader::new(());
    reader.fill_buffer(ReadEvent::Data(b"\"a\xC3"));
    let mut string_reader = reader.next_string_reader().unwrap();
    let mut bytes = Vec::new();
    assert_eq!(
        Err(StringReadStop::NeedsInput),
        string_reader.read(&mut reader, &mut bytes, 10)
    );
    assert_eq!(b"a".to_vec(), bytes);
    assert_eq!((0, 2, 2), location_of_failure(&mut reader));
    assert_eq!(1024, reader.read_capacity());
}

#[test]
fn checking_for_next_is_idempotent() -> Result<(), ReaderError> {
    let mut reader = Feed::new(
        b"1 // end",
        usize::MAX,
        ReaderSettings {
            allow_multiple_top_level: true,
            ..lenient()
        },
    );
    assert_eq!("1", reader.next_number()?);
    assert!(!reader.has_next()?);
    let position = reader.position();
    assert!(!reader.has_next()?);
    assert_eq!(position, reader.position());
    Ok(())
}

#[test]
fn transferred_values_can_be_skipped() -> Result<(), ReaderError> {
    let mut transferring = feed(DOCUMENT);
    transferring.transfer()?;
    let mut skipping = feed(DOCUMENT);
    skipping.skip_value()?;
    assert_eq!(transferring.position(), skipping.position());
    Ok(())
}

#[test]
fn skipping_ignores_restriction() -> Result<(), ReaderError> {
    let json = "[1e1000, {\"a\": 1e-1000}]";
    assert!(read_json(&mut feed(json)).is_err());
    let unrestricted = ReaderSettings {
        restrict_number_values: false,
        ..Default::default()
    };
    let mut reading = Feed::new(json.as_bytes(), usize::MAX, unrestricted);
    read_json(&mut reading)?;
    let mut skipping = feed(json);
    skipping.skip_value()?;
    assert_eq!(reading.position(), skipping.position());
    Ok(())
}

#[test]
fn chars_in_comments_are_counted() -> Result<(), ReaderError> {
    let json = "/* \u{20AC}\r\n\u{10FFFF}\n\r\u{E9} * */ // \u{1F600}\r \u{9}/*\u{E9}*/[]";
    let mut reader = Feed::new(json.as_bytes(), usize::MAX, lenient());
    reader.peek()?;
    let location = reader.position();
    let line_pos = location.line_pos.unwrap();
    assert_eq!((4, 7), (line_pos.line, line_pos.column));
    assert_eq!(Some(json.len() as u64 - 2), location.data_pos);
    Ok(())
}

/// Uses all kinds of calls one after the other, and tells the result of and the position after each.
fn sequence(json: &[u8], piece_size: usize, track_path: bool) -> Vec<String> {
    let settings = ReaderSettings {
        track_path,
        allow_multiple_top_level: true,
        ..lenient()
    };
    let mut reader = Feed::new(json, piece_size, settings);
    let mut answers = Vec::new();
    let calls: [fn(&mut Feed<'_>) -> String; 14] = [
        |r| format!("{:?}", r.peek()),
        |r| format!("{:?}", r.begin_object()),
        |r| format!("{:?}", r.next_name()),
        |r| format!("{:?}", r.next_bool()),
        |r| format!("{:?}", r.stream_string(3)),
        |r| format!("{:?}", r.skip_name()),
        |r| format!("{:?}", r.begin_array()),
        |r| format!("{:?}", r.next_number()),
        |r| format!("{:?}", r.transfer()),
        |r| format!("{:?}", r.skip_to_top_level()),
        |r| format!("{:?}", r.has_next()),
        |r| format!("{:?}", r.skip_value()),
        |r| format!("{:?}", r.has_next()),
        |r| format!("{:?}", r.consume_trailing_whitespace()),
    ];
    for call in calls {
        answers.push(call(&mut reader));
        let position = reader.position();
        assert_eq!(track_path, position.path.is_some());
        answers.push(format!("{:?}", (position.line_pos, position.data_pos)));
    }
    answers
}

const SEQUENCE: &str = "{ \"a\": \"x\u{20AC}\\u00e9y\", /* \u{E9} */\r\n\"b\" :[12.5e1 , \
    [\"\\n\", {\"\": null}], 2], \"c\": {}, } [1e200] // end";

#[test]
fn sequences_do_not_depend_on_pieces() {
    let json = SEQUENCE.as_bytes();
    let expected = sequence(json, usize::MAX, true);
    assert_eq!("Ok([120, 226, 130, 172, 195, 169, 121])", expected[8]);
    assert_eq!("Ok(\"12.5e1\")", expected[14]);
    for piece_size in 1..=json.len() {
        assert_eq!(expected, sequence(json, piece_size, true));
    }
}

#[test]
fn sequences_do_not_depend_on_tracked_path() {
    let json = SEQUENCE.as_bytes();
    let mut with_path = sequence(json, 7, true);
    let mut without_path = sequence(json, 7, false);
    // The error tells the path
    assert!(with_path[6].starts_with("Err(UnexpectedValueType"));
    assert_ne!(with_path.remove(6), without_path.remove(6));
    assert_eq!(with_path, without_path);
}

#[test]
fn interrupted_reads_have_no_effect() {
    let mut reader = JsonStreamReader::new(());
    let mut numbers = Vec::new();
    reader.fill_buffer(ReadEvent::Data(b"["));
    reader.begin_array().unwrap();
    for data in [b"1".as_slice(), b"2", b",", b" 3", b"]"] {
        loop {
            match reader.next_number_as_string() {
                Ok(number) => numbers.push(number),
                Err(stop) => {
                    assert_eq!(Stop::NeedsInput, stop);
                    break;
                }
            }
        }
        assert_eq!(FillAction::Retry, reader.fill_buffer(ReadEvent::Interrupted));
        assert_eq!(FillAction::Continue, reader.fill_buffer(ReadEvent::Data(data)));
    }
    numbers.push(reader.next_number_as_string().unwrap());
    assert_eq!(vec!["12".to_owned(), "3".to_owned()], numbers);
    assert_eq!(Ok(()), reader.end_array());
}
