//! Reading documents, supplied in chunks of various sizes.

use struson::reader::JsonStreamReader;
use struson::types::{
    FillStep, JsonPathPiece, ReaderError, ReaderSettings, Step, SyntaxErrorKind,
    UnexpectedStructureKind, ValueType,
};

/// Data which is handed out in chunks.
struct Source {
    data: Vec<u8>,
    pos: usize,
    chunk_size: usize,
}

type Reader = JsonStreamReader<Source>;

fn source(data: &[u8], chunk_size: usize) -> Source {
    Source {
        data: data.to_vec(),
        pos: 0,
        chunk_size,
    }
}

fn reader(data: &str) -> Reader {
    JsonStreamReader::new(source(data.as_bytes(), 1024))
}

fn custom(data: &str, settings: ReaderSettings) -> Reader {
    JsonStreamReader::new_custom(source(data.as_bytes(), 1024), settings)
}

/// Supplies the next chunk.
fn feed(reader: &mut Reader) {
    let limit = reader.prepare_fill();
    assert!(limit > 0);
    let source = reader.reader_mut();
    let start = source.pos;
    let end = source
        .data
        .len()
        .min(start + source.chunk_size)
        .min(start + limit);
    source.pos = end;
    let chunk = source.data[start..end].to_vec();
    let step = reader.fill_buffer(Ok(&chunk)).unwrap();
    if chunk.is_empty() {
        assert_eq!(FillStep::EndOfInput, step);
    } else {
        assert_eq!(FillStep::Filled, step);
    }
}

/// Calls an operation until it is complete.
fn run<T>(
    reader: &mut Reader,
    mut operation: impl FnMut(&mut Reader) -> Result<Step<T>, ReaderError>,
) -> Result<T, ReaderError> {
    loop {
        match operation(reader)? {
            Step::Ready(value) => return Ok(value),
            Step::NeedInput => feed(reader),
        }
    }
}

fn peek(r: &mut Reader) -> Result<ValueType, ReaderError> {
    run(r, |r| r.peek())
}

fn begin_array(r: &mut Reader) -> Result<(), ReaderError> {
    run(r, |r| r.begin_array())
}

fn end_array(r: &mut Reader) -> Result<(), ReaderError> {
    run(r, |r| r.end_array())
}

fn begin_object(r: &mut Reader) -> Result<(), ReaderError> {
    run(r, |r| r.begin_object())
}

fn end_object(r: &mut Reader) -> Result<(), ReaderError> {
    run(r, |r| r.end_object())
}

fn has_next(r: &mut Reader) -> Result<bool, ReaderError> {
    run(r, |r| r.has_next())
}

fn next_name(r: &mut Reader) -> Result<String, ReaderError> {
    run(r, |r| r.next_name_owned())
}

fn next_string(r: &mut Reader) -> Result<String, ReaderError> {
    run(r, |r| r.next_string())
}

fn next_number(r: &mut Reader) -> Result<String, ReaderError> {
    run(r, |r| r.next_number_as_string())
}

fn next_bool(r: &mut Reader) -> Result<bool, ReaderError> {
    run(r, |r| r.next_bool())
}

fn next_null(r: &mut Reader) -> Result<(), ReaderError> {
    run(r, |r| r.next_null())
}

fn skip_value(r: &mut Reader) -> Result<(), ReaderError> {
    run(r, |r| r.skip_value())
}

fn finish(r: &mut Reader) -> Result<(), ReaderError> {
    run(r, |r| r.consume_trailing_whitespace())
}

/// Line, column and byte position of the reader.
fn place(r: &Reader) -> (u64, u64, u64) {
    let position = r.current_position(false);
    assert!(position.path.is_none());
    let line_pos = position.line_pos.unwrap();
    (line_pos.line, line_pos.column, position.data_pos.unwrap())
}

/// The path in the notation `$[0].name`.
fn path_text(path: &Option<Vec<JsonPathPiece>>) -> String {
    let mut text = String::from("$");
    for piece in path.as_ref().unwrap() {
        match piece {
            JsonPathPiece::ArrayItem(index) => text.push_str(&format!("[{index}]")),
            JsonPathPiece::ObjectMember(name) => text.push_str(&format!(".{name}")),
        }
    }
    text
}

/// Kind and location (path, line, column, byte position) of a syntax error.
fn syntax<T>(result: Result<T, ReaderError>) -> (SyntaxErrorKind, String, u64, u64, u64) {
    match result {
        Err(ReaderError::SyntaxError(e)) => {
            let line_pos = e.location.line_pos.unwrap();
            (
                e.kind,
                path_text(&e.location.path),
                line_pos.line,
                line_pos.column,
                e.location.data_pos.unwrap(),
            )
        }
        Err(e) => panic!("unexpected error {e:?}"),
        Ok(_) => panic!("should have failed"),
    }
}

fn assert_syntax_error<T>(
    result: Result<T, ReaderError>,
    kind: SyntaxErrorKind,
    path: &str,
    line: u64,
    column: u64,
    byte_pos: u64,
) {
    assert_eq!(
        (kind, path.to_owned(), line, column, byte_pos),
        syntax(result)
    );
}

fn assert_structure_error<T>(result: Result<T, ReaderError>, expected: UnexpectedStructureKind) {
    match result {
        Err(ReaderError::UnexpectedStructure { kind, .. }) => assert_eq!(expected, kind),
        _ => panic!("should have been a structure error"),
    }
}

/// Reads any value and describes it.
fn describe(r: &mut Reader) -> Result<String, ReaderError> {
    Ok(match peek(r)? {
        ValueType::Array => {
            begin_array(r)?;
            let mut text = String::from("[");
            while has_next(r)? {
                text.push_str(&describe(r)?);
                text.push(';');
            }
            end_array(r)?;
            text + "]"
        }
        ValueType::Object => {
            begin_object(r)?;
            let mut text = String::from("{");
            while has_next(r)? {
                text.push_str(&format!("{:?}=", next_name(r)?));
                text.push_str(&describe(r)?);
                text.push(';');
            }
            end_object(r)?;
            text + "}"
        }
        ValueType::String => format!("{:?}", next_string(r)?),
        ValueType::Number => next_number(r)?,
        ValueType::Boolean => format!("{}", next_bool(r)?),
        ValueType::Null => {
            next_null(r)?;
            "null".to_owned()
        }
    })
}

const DOCUMENT: &str = "{\"a\": [1, -2.5e+3, \"x\\n\\u00e4\\uD83D\\uDE00\\/\u{20ac}\u{1f600}\", true, false, null],\r\n \"\": {},\n\t\"b\" : [ [ ] , { \"c\":[0] } ] }\r ";
const DESCRIPTION: &str = "{\"a\"=[1;-2.5e+3;\"x\\nä😀/€😀\";true;false;null;];\"\"={};\"b\"=[[];{\"c\"=[0;];};];}";

#[test]
fn result_does_not_depend_on_chunks() {
    for chunk_size in [1, 2, 3, 5, 8, 13, 1024] {
        let mut r = JsonStreamReader::new(source(DOCUMENT.as_bytes(), chunk_size));
        assert_eq!(DESCRIPTION, describe(&mut r).unwrap());
        assert!(finish(&mut r).is_ok());
        assert_eq!((3, 1, DOCUMENT.len() as u64), place(&r));
    }
}

#[test]
fn skipping_does_not_depend_on_chunks() {
    for chunk_size in [1, 2, 3, 5, 8, 13, 1024] {
        let mut r = JsonStreamReader::new(source(DOCUMENT.as_bytes(), chunk_size));
        assert!(skip_value(&mut r).is_ok());
        assert!(finish(&mut r).is_ok());
        assert_eq!((3, 1, DOCUMENT.len() as u64), place(&r));
    }
}

#[test]
fn long_values_exceed_the_buffer() {
    let text = "äb".repeat(2000);
    let number = "1".repeat(3000);
    let data = format!("[\"{text}\", {number}, \"{text}\\n{text}\"]");
    for chunk_size in [1, 100, 1024] {
        let settings = ReaderSettings {
            restrict_number_values: false,
            ..Default::default()
        };
        let mut r = JsonStreamReader::new_custom(source(data.as_bytes(), chunk_size), settings);
        begin_array(&mut r).unwrap();
        assert_eq!(text, next_string(&mut r).unwrap());
        assert_eq!(number, next_number(&mut r).unwrap());
        assert_eq!(format!("{text}\n{text}"), next_string(&mut r).unwrap());
        end_array(&mut r).unwrap();
        finish(&mut r).unwrap();
    }
}

#[test]
fn borrowed_results() {
    for chunk_size in [1, 4, 1024] {
        let data = b"{\"n\\u0061me\":[\"text\",\"t\\text\",12.5]}";
        let mut r = JsonStreamReader::new(source(data, chunk_size));
        begin_object(&mut r).unwrap();
        let value = run(&mut r, |r| r.next_name_value()).unwrap();
        assert_eq!("name", r.get_str(value));
        begin_array(&mut r).unwrap();
        let value = run(&mut r, |r| r.next_str_value()).unwrap();
        assert_eq!("text", r.get_str(value));
        let value = run(&mut r, |r| r.next_str_value()).unwrap();
        assert_eq!("t\text", r.get_str(value));
        let value = run(&mut r, |r| r.next_number_value()).unwrap();
        assert_eq!("12.5", r.get_str(value));
        end_array(&mut r).unwrap();
        end_object(&mut r).unwrap();
    }
}

#[test]
fn borrowed_results_when_all_input_is_there() {
    let mut r = reader("{\"name\":[\"text\",7 ]}");
    feed(&mut r);
    feed(&mut r);
    begin_object(&mut r).unwrap();
    assert!(matches!(r.next_name(), Ok(Step::Ready("name"))));
    begin_array(&mut r).unwrap();
    assert!(matches!(r.next_str(), Ok(Step::Ready("text"))));
    assert!(matches!(r.next_number_as_str(), Ok(Step::Ready("7"))));
    end_array(&mut r).unwrap();
    end_object(&mut r).unwrap();
}

#[test]
fn peek_does_not_consume() {
    let mut r = reader(" [null]");
    assert_eq!(ValueType::Array, peek(&mut r).unwrap());
    assert_eq!(ValueType::Array, peek(&mut r).unwrap());
    assert_eq!((0, 1, 1), place(&r));
    begin_array(&mut r).unwrap();
    assert_eq!((0, 2, 2), place(&r));
    assert_eq!(ValueType::Null, peek(&mut r).unwrap());
    next_null(&mut r).unwrap();
    assert_structure_error(
        peek(&mut r),
        UnexpectedStructureKind::FewerElementsThanExpected,
    );
    end_array(&mut r).unwrap();
}

#[test]
fn value_types() {
    for (data, expected) in [
        ("[]", ValueType::Array),
        ("{}", ValueType::Object),
        ("\"\"", ValueType::String),
        ("-1", ValueType::Number),
        ("0", ValueType::Number),
        ("true", ValueType::Boolean),
        ("false", ValueType::Boolean),
        ("null", ValueType::Null),
    ] {
        assert_eq!(expected, peek(&mut reader(data)).unwrap());
    }
}

#[test]
fn unexpected_value_type_is_recoverable() {
    let mut r = reader("[\"a\", 1]");
    begin_array(&mut r).unwrap();
    match next_number(&mut r) {
        Err(ReaderError::UnexpectedValueType {
            expected,
            actual,
            location,
        }) => {
            assert_eq!(ValueType::Number, expected);
            assert_eq!(ValueType::String, actual);
            assert_eq!("$[0]", path_text(&location.path));
            assert_eq!(Some(1), location.data_pos);
        }
        _ => panic!("should have failed"),
    }
    assert_eq!("a", next_string(&mut r).unwrap());
    assert!(matches!(
        next_null(&mut r),
        Err(ReaderError::UnexpectedValueType { .. })
    ));
    assert!(matches!(
        begin_array(&mut r),
        Err(ReaderError::UnexpectedValueType { .. })
    ));
    assert_eq!("1", next_number(&mut r).unwrap());
    end_array(&mut r).unwrap();
}

#[test]
fn unexpected_structure() {
    let mut r = reader("[1]");
    begin_array(&mut r).unwrap();
    assert_structure_error(
        end_array(&mut r),
        UnexpectedStructureKind::MoreElementsThanExpected,
    );
    assert_eq!("1", next_number(&mut r).unwrap());
    assert_structure_error(
        next_number(&mut r),
        UnexpectedStructureKind::FewerElementsThanExpected,
    );
    assert_structure_error(
        skip_value(&mut r),
        UnexpectedStructureKind::FewerElementsThanExpected,
    );
    end_array(&mut r).unwrap();

    let mut r = reader("{\"a\":1}");
    begin_object(&mut r).unwrap();
    assert_structure_error(
        end_object(&mut r),
        UnexpectedStructureKind::MoreElementsThanExpected,
    );
    assert_eq!("a", next_name(&mut r).unwrap());
    assert_eq!("1", next_number(&mut r).unwrap());
    assert_structure_error(
        next_name(&mut r),
        UnexpectedStructureKind::FewerElementsThanExpected,
    );
    assert_structure_error(
        run(&mut r, |r| r.skip_name()),
        UnexpectedStructureKind::FewerElementsThanExpected,
    );
    end_object(&mut r).unwrap();
}

#[test]
fn positions_and_paths() {
    let mut r = reader("{\"a\": [true,\r\n\"\u{e4}\u{20ac}\\u0041\",\rnull\n]}");
    let path = |r: &Reader| path_text(&r.current_position(true).path);
    assert_eq!("$", path(&r));
    begin_object(&mut r).unwrap();
    assert_eq!("$.<?>", path(&r));
    assert_eq!("a", next_name(&mut r).unwrap());
    assert_eq!("$.a", path(&r));
    assert_eq!((0, 4, 4), place(&r));
    begin_array(&mut r).unwrap();
    assert_eq!("$.a[0]", path(&r));
    assert_eq!((0, 7, 7), place(&r));
    assert!(next_bool(&mut r).unwrap());
    assert_eq!("$.a[1]", path(&r));
    assert_eq!((0, 11, 11), place(&r));
    assert_eq!("ä€A", next_string(&mut r).unwrap());
    // `"` + 2 characters + escape sequence + `"`
    assert_eq!((1, 10, 14 + 1 + 2 + 3 + 6 + 1), place(&r));
    next_null(&mut r).unwrap();
    assert_eq!("$.a[3]", path(&r));
    assert_eq!((2, 4, 33), place(&r));
    end_array(&mut r).unwrap();
    assert_eq!("$.a", path(&r));
    assert_eq!((3, 1, 35), place(&r));
    end_object(&mut r).unwrap();
    assert_eq!("$", path(&r));
    finish(&mut r).unwrap();
}

#[test]
fn path_is_not_tracked() {
    let settings = ReaderSettings {
        track_path: false,
        ..Default::default()
    };
    let mut r = custom("{\"a\": [1, x]}", settings);
    begin_object(&mut r).unwrap();
    run(&mut r, |r| r.skip_name()).unwrap();
    begin_array(&mut r).unwrap();
    assert!(r.current_position(true).path.is_none());
    skip_value(&mut r).unwrap();
    match peek(&mut r) {
        Err(ReaderError::SyntaxError(e)) => {
            assert_eq!(SyntaxErrorKind::MalformedJson, e.kind);
            assert!(e.location.path.is_none());
            assert_eq!(Some(10), e.location.data_pos);
        }
        _ => panic!("should have failed"),
    }
}

#[test]
fn syntax_errors_of_literals() {
    for data in ["tru", "trux", "nul", "nulll", "f", "fals3"] {
        let kind = if data == "nulll" {
            SyntaxErrorKind::TrailingDataAfterLiteral
        } else {
            SyntaxErrorKind::InvalidLiteral
        };
        assert_syntax_error(peek(&mut reader(data)), kind, "$", 0, 0, 0);
    }
    assert_syntax_error(
        peek(&mut reader(" truey")),
        SyntaxErrorKind::TrailingDataAfterLiteral,
        "$",
        0,
        1,
        1,
    );
}

#[test]
fn syntax_errors_of_structure() {
    let open = |data: &str| {
        let mut r = reader(data);
        begin_array(&mut r).unwrap();
        r
    };
    assert_syntax_error(
        peek(&mut reader("]")),
        SyntaxErrorKind::UnexpectedClosingBracket,
        "$",
        0,
        0,
        0,
    );
    assert_syntax_error(
        peek(&mut open("[}")),
        SyntaxErrorKind::UnexpectedClosingBracket,
        "$[0]",
        0,
        1,
        1,
    );
    assert_syntax_error(
        peek(&mut open("[,")),
        SyntaxErrorKind::UnexpectedComma,
        "$[0]",
        0,
        1,
        1,
    );
    assert_syntax_error(
        peek(&mut reader(":")),
        SyntaxErrorKind::UnexpectedColon,
        "$",
        0,
        0,
        0,
    );
    assert_syntax_error(
        peek(&mut reader("@")),
        SyntaxErrorKind::MalformedJson,
        "$",
        0,
        0,
        0,
    );
    assert_syntax_error(
        peek(&mut reader("  ")),
        SyntaxErrorKind::IncompleteDocument,
        "$",
        0,
        2,
        2,
    );

    let mut r = open("[1 2]");
    skip_value(&mut r).unwrap();
    assert_syntax_error(
        peek(&mut r),
        SyntaxErrorKind::MissingComma,
        "$[1]",
        0,
        3,
        3,
    );
    let mut r = open("[1,,2]");
    skip_value(&mut r).unwrap();
    assert_syntax_error(
        peek(&mut r),
        SyntaxErrorKind::UnexpectedComma,
        "$[1]",
        0,
        3,
        3,
    );
    let mut r = open("[1 ,\n ]");
    skip_value(&mut r).unwrap();
    assert_syntax_error(
        has_next(&mut r),
        SyntaxErrorKind::TrailingCommaNotEnabled,
        "$[1]",
        0,
        3,
        3,
    );
    let mut r = open("[1,");
    skip_value(&mut r).unwrap();
    assert_syntax_error(
        has_next(&mut r),
        SyntaxErrorKind::IncompleteDocument,
        "$[1]",
        0,
        3,
        3,
    );

    let mut r = reader("{1:2}");
    begin_object(&mut r).unwrap();
    assert_syntax_error(
        has_next(&mut r),
        SyntaxErrorKind::ExpectingMemberNameOrObjectEnd,
        "$.<?>",
        0,
        1,
        1,
    );
    for data in ["{\"a\" 1}", "{\"a\" "] {
        let mut r = reader(data);
        begin_object(&mut r).unwrap();
        next_name(&mut r).unwrap();
        assert_syntax_error(
            peek(&mut r),
            SyntaxErrorKind::MissingColon,
            "$.a",
            0,
            5,
            5,
        );
    }

    let mut r = reader("[] 1");
    skip_value(&mut r).unwrap();
    assert_syntax_error(
        finish(&mut r),
        SyntaxErrorKind::TrailingData,
        "$",
        0,
        3,
        3,
    );
}

#[test]
fn syntax_errors_of_strings() {
    for (data, kind) in [
        ("\"a", SyntaxErrorKind::IncompleteDocument),
        ("\"a\\", SyntaxErrorKind::MalformedEscapeSequence),
        ("\"a\\x\"", SyntaxErrorKind::UnknownEscapeSequence),
        ("\"a\\u12", SyntaxErrorKind::MalformedEscapeSequence),
        ("\"a\\u12g4\"", SyntaxErrorKind::MalformedEscapeSequence),
        ("\"a\\uDC00\"", SyntaxErrorKind::UnpairedSurrogatePairEscapeSequence),
        ("\"a\\uD800\"", SyntaxErrorKind::UnpairedSurrogatePairEscapeSequence),
        ("\"a\\uD800\\n\"", SyntaxErrorKind::UnpairedSurrogatePairEscapeSequence),
        ("\"a\\uD800\\u0041\"", SyntaxErrorKind::UnpairedSurrogatePairEscapeSequence),
        ("\"a\\uD800\\u004", SyntaxErrorKind::MalformedEscapeSequence),
        ("\"a\\uD800", SyntaxErrorKind::UnpairedSurrogatePairEscapeSequence),
        ("\"a\n\"", SyntaxErrorKind::NotEscapedControlCharacter),
        ("\"a\u{1f}\"", SyntaxErrorKind::NotEscapedControlCharacter),
    ] {
        for chunk_size in [1, 1024] {
            let mut r = JsonStreamReader::new(source(data.as_bytes(), chunk_size));
            assert_syntax_error(next_string(&mut r), kind, "$", 0, 2, 2);
            let mut r = JsonStreamReader::new(source(data.as_bytes(), chunk_size));
            assert_syntax_error(skip_value(&mut r), kind, "$", 0, 2, 2);
        }
    }
}

#[test]
fn escape_sequences() {
    let mut r = reader("\"\\\"\\\\\\/\\b\\f\\n\\r\\t\\u0000\\u00E4\\uFFFF\\uD834\\uDD1E\\udbff\\udfff\"");
    assert_eq!(
        "\"\\/\u{8}\u{c}\n\r\t\0\u{e4}\u{ffff}\u{1d11e}\u{10ffff}",
        next_string(&mut r).unwrap()
    );
    assert_eq!((0, 60, 60), place(&r));
}

#[test]
fn invalid_utf8() {
    for bytes in [
        &[0x80_u8, 0x80][..],
        &[0xC1, 0x80],
        &[0xC3, 0x28],
        &[0xE0, 0x80, 0x80],
        &[0xED, 0xA0, 0x80],
        &[0xE2, 0x82, 0x28],
        &[0xF0, 0x80, 0x80, 0x80],
        &[0xF4, 0x90, 0x80, 0x80],
        &[0xF8, 0x88, 0x80, 0x80, 0x80],
        &[0xFF, 0xBF, 0xBF, 0xBF],
    ] {
        let mut data = vec![b'"', b'a'];
        data.extend_from_slice(bytes);
        data.push(b'"');
        for chunk_size in [1, 1024] {
            let mut r = JsonStreamReader::new(source(&data, chunk_size));
            match next_string(&mut r) {
                Err(ReaderError::IoError { error, location }) => {
                    assert_eq!(struson::types::ErrorKind::InvalidData, error.kind);
                    assert_eq!("invalid UTF-8 data", error.message);
                    assert_eq!(Some(2), location.data_pos);
                }
                _ => panic!("should have failed"),
            }
        }
    }
    // Incomplete character
    let mut r = JsonStreamReader::new(source(&[b'"', 0xE2, 0x82], 1024));
    assert_syntax_error(
        next_string(&mut r),
        SyntaxErrorKind::IncompleteDocument,
        "$",
        0,
        1,
        1,
    );
}

#[test]
fn valid_utf8_limits() {
    let text = "\u{7f}\u{80}\u{7ff}\u{800}\u{d7ff}\u{e000}\u{ffff}\u{10000}\u{10ffff}";
    let data = format!("\"{text}\"");
    for chunk_size in [1, 2, 1024] {
        let mut r = JsonStreamReader::new(source(data.as_bytes(), chunk_size));
        assert_eq!(text, next_string(&mut r).unwrap());
        assert_eq!((0, 11, data.len() as u64), place(&r));
    }
}

#[test]
fn numbers() {
    for data in [
        "0", "-0", "1", "-12", "1.0", "0.05", "1e5", "1E+5", "12.50e-07", "1e99", "1e0099", "1e-99",
    ] {
        for chunk_size in [1, 1024] {
            let mut r = JsonStreamReader::new(source(data.as_bytes(), chunk_size));
            assert_eq!(data, next_number(&mut r).unwrap());
            assert_eq!((0, data.len() as u64, data.len() as u64), place(&r));
            finish(&mut r).unwrap();
        }
    }
}

#[test]
fn malformed_numbers() {
    for data in ["-", "-a", "1.", "1.e5", "1e", "1e+", "1eA", "-\n"] {
        assert_syntax_error(
            next_number(&mut reader(data)),
            SyntaxErrorKind::MalformedNumber,
            "$",
            0,
            0,
            0,
        );
        assert_syntax_error(
            skip_value(&mut reader(data)),
            SyntaxErrorKind::MalformedNumber,
            "$",
            0,
            0,
            0,
        );
    }
    for (data, column) in [("01", 1), ("1f", 1), ("0.1.2", 3), ("1e5e", 3), ("12\"", 2)] {
        assert_syntax_error(
            next_number(&mut reader(data)),
            SyntaxErrorKind::TrailingDataAfterNumber,
            "$",
            0,
            column,
            column,
        );
    }
}

#[test]
fn restricted_numbers() {
    let exactly_100 = "1".repeat(100);
    assert_eq!(exactly_100, next_number(&mut reader(&exactly_100)).unwrap());
    let too_long = "1".repeat(101);
    for data in ["1e100", "1e-100", "1.5E+0123", &too_long] {
        match next_number(&mut reader(data)) {
            Err(ReaderError::UnsupportedNumberValue { number, location }) => {
                assert_eq!(data, number);
                assert_eq!(Some(0), location.data_pos);
            }
            _ => panic!("should have failed"),
        }
        // Numbers are not restricted while skipping
        skip_value(&mut reader(data)).unwrap();
        let settings = ReaderSettings {
            restrict_number_values: false,
            ..Default::default()
        };
        assert_eq!(data, next_number(&mut custom(data, settings)).unwrap());
    }
}

#[test]
fn nesting_depth() {
    let settings = ReaderSettings {
        max_nesting_depth: Some(2),
        ..Default::default()
    };
    let mut r = custom("[[[]]]", settings);
    begin_array(&mut r).unwrap();
    begin_array(&mut r).unwrap();
    match begin_array(&mut r) {
        Err(ReaderError::MaxNestingDepthExceeded {
            max_nesting_depth,
            location,
        }) => {
            assert_eq!(2, max_nesting_depth);
            assert_eq!("$[0][0]", path_text(&location.path));
            assert_eq!(Some(2), location.data_pos);
        }
        _ => panic!("should have failed"),
    }
    assert!(matches!(
        skip_value(&mut r),
        Err(ReaderError::MaxNestingDepthExceeded { .. })
    ));
    assert_eq!(ValueType::Array, peek(&mut r).unwrap());

    assert!(skip_value(&mut custom("{\"outer\": {\"inner\": 1}}", settings)).is_ok());
    assert!(matches!(
        skip_value(&mut custom("[[{}]]", settings)),
        Err(ReaderError::MaxNestingDepthExceeded { .. })
    ));

    let open = "[".repeat(128);
    let close = "]".repeat(128);
    assert!(skip_value(&mut reader(&format!("{open}{close}"))).is_ok());
    assert!(matches!(
        skip_value(&mut reader(&format!("[{open}{close}]"))),
        Err(ReaderError::MaxNestingDepthExceeded {
            max_nesting_depth: 128,
            ..
        })
    ));
    let unlimited = ReaderSettings {
        max_nesting_depth: None,
        ..Default::default()
    };
    assert!(skip_value(&mut custom(&format!("[{open}{close}]"), unlimited)).is_ok());
}

#[test]
fn default_settings() {
    let settings = ReaderSettings::default();
    assert!(!settings.allow_comments);
    assert!(!settings.allow_trailing_comma);
    assert!(!settings.allow_multiple_top_level);
    assert!(settings.track_path);
    assert_eq!(Some(128), settings.max_nesting_depth);
    assert!(settings.restrict_number_values);
}

#[test]
fn comments() {
    let settings = ReaderSettings {
        allow_comments: true,
        ..Default::default()
    };
    let data = "/* a\r\n\u{20ac} **/ [ // first\n1,/***/2 // \u{e4}\r] // end";
    for chunk_size in [1, 2, 3, 1024] {
        let mut r = JsonStreamReader::new_custom(source(data.as_bytes(), chunk_size), settings);
        begin_array(&mut r).unwrap();
        assert_eq!((1, 7, 15), place(&r));
        assert_eq!("1", next_number(&mut r).unwrap());
        assert_eq!((2, 1, 26), place(&r));
        assert_eq!("2", next_number(&mut r).unwrap());
        end_array(&mut r).unwrap();
        assert_eq!((3, 1, 41), place(&r));
        finish(&mut r).unwrap();
        assert_eq!(data.len() as u64, place(&r).2);
    }

    assert_syntax_error(
        peek(&mut reader(" /* */1")),
        SyntaxErrorKind::CommentsNotEnabled,
        "$",
        0,
        1,
        1,
    );
    for (data, kind, column) in [
        ("/", SyntaxErrorKind::IncompleteComment, 1),
        ("/a", SyntaxErrorKind::IncompleteComment, 1),
        ("/* a", SyntaxErrorKind::BlockCommentNotClosed, 4),
        ("/* *", SyntaxErrorKind::BlockCommentNotClosed, 4),
        ("/* \u{1} */", SyntaxErrorKind::NotEscapedControlCharacter, 3),
        ("//\u{0}\n", SyntaxErrorKind::NotEscapedControlCharacter, 2),
        ("// a", SyntaxErrorKind::IncompleteDocument, 4),
    ] {
        assert_syntax_error(peek(&mut custom(data, settings)), kind, "$", 0, column, column);
    }
}

#[test]
fn trailing_commas() {
    let settings = ReaderSettings {
        allow_trailing_comma: true,
        ..Default::default()
    };
    let mut r = custom("[1, ]", settings);
    assert_eq!("[1;]", describe(&mut r).unwrap());
    let mut r = custom("{\"a\":1,\n}", settings);
    assert_eq!("{\"a\"=1;}", describe(&mut r).unwrap());
    assert_syntax_error(
        skip_value(&mut custom("[,]", settings)),
        SyntaxErrorKind::UnexpectedComma,
        "$[0]",
        0,
        1,
        1,
    );
    assert_syntax_error(
        skip_value(&mut custom("[1,,]", settings)),
        SyntaxErrorKind::UnexpectedComma,
        "$[1]",
        0,
        3,
        3,
    );
    assert_syntax_error(
        skip_value(&mut reader("{\"a\":1,}")),
        SyntaxErrorKind::TrailingCommaNotEnabled,
        "$.a",
        0,
        6,
        6,
    );
}

#[test]
fn multiple_top_level_values() {
    let settings = ReaderSettings {
        allow_multiple_top_level: true,
        ..Default::default()
    };
    let mut r = custom("true [] 1 ", settings);
    assert!(next_bool(&mut r).unwrap());
    assert!(has_next(&mut r).unwrap());
    begin_array(&mut r).unwrap();
    end_array(&mut r).unwrap();
    assert!(has_next(&mut r).unwrap());
    assert_eq!("1", next_number(&mut r).unwrap());
    assert!(!has_next(&mut r).unwrap());
    assert_structure_error(
        peek(&mut r),
        UnexpectedStructureKind::FewerElementsThanExpected,
    );
    assert_structure_error(
        skip_value(&mut r),
        UnexpectedStructureKind::FewerElementsThanExpected,
    );
    finish(&mut r).unwrap();
}

#[test]
fn empty_document_with_multiple_top_level_values() {
    let settings = ReaderSettings {
        allow_multiple_top_level: true,
        ..Default::default()
    };
    assert_syntax_error(
        peek(&mut custom("", settings)),
        SyntaxErrorKind::IncompleteDocument,
        "$",
        0,
        0,
        0,
    );
}

#[test]
fn skipping_to_top_level() {
    for chunk_size in [1, 3, 1024] {
        let data = b"{\"a\": [1, {\"b\": [true, \"x\"], \"c\": null}, 2], \"d\": {}} ";
        let mut r = JsonStreamReader::new(source(data, chunk_size));
        begin_object(&mut r).unwrap();
        next_name(&mut r).unwrap();
        begin_array(&mut r).unwrap();
        skip_value(&mut r).unwrap();
        begin_object(&mut r).unwrap();
        assert_eq!("b", next_name(&mut r).unwrap());
        run(&mut r, |r| r.skip_to_top_level()).unwrap();
        finish(&mut r).unwrap();
        assert_eq!((0, data.len() as u64, data.len() as u64), place(&r));
    }
    let mut r = reader("[1, 2");
    begin_array(&mut r).unwrap();
    assert_syntax_error(
        run(&mut r, |r| r.skip_to_top_level()),
        SyntaxErrorKind::IncompleteDocument,
        "$[2]",
        0,
        5,
        5,
    );
    // Nothing to skip
    let mut r = reader("1");
    run(&mut r, |r| r.skip_to_top_level()).unwrap();
    assert_eq!("1", next_number(&mut r).unwrap());
}

#[test]
fn skipping_is_like_reading() {
    for data in [
        "true ",
        "null,",
        "\"a\\u0041b\" ",
        "-1.5e3]",
        "[] ",
        " [1, [true], {\"a\": null, \"b\": \"c\"}]",
        "{\"a\": {\"b\": []}, \"c\": 1}",
    ] {
        let mut read = reader(data);
        describe(&mut read).unwrap();
        let mut skipped = reader(data);
        skip_value(&mut skipped).unwrap();
        assert_eq!(place(&read), place(&skipped));
        assert_eq!("$", path_text(&read.current_position(true).path));
        assert_eq!("$", path_text(&skipped.current_position(true).path));
    }
}

#[test]
fn skipping_inside_containers() {
    let mut r = reader("{\"a\": [[1], {}], \"b\": \"\\n\", \"c\": 1e1000}");
    begin_object(&mut r).unwrap();
    assert_eq!("a", next_name(&mut r).unwrap());
    skip_value(&mut r).unwrap();
    run(&mut r, |r| r.skip_name()).unwrap();
    assert_eq!("$.b", path_text(&r.current_position(true).path));
    skip_value(&mut r).unwrap();
    assert_eq!("c", next_name(&mut r).unwrap());
    skip_value(&mut r).unwrap();
    assert!(!has_next(&mut r).unwrap());
    end_object(&mut r).unwrap();
}

#[test]
fn accepted_documents() {
    for data in [
        "1", " true\n", "[]", "{}", "[ ]", "[1,2]", "[[],[[]]]", "{\"a\":1}", "{\"a\":{\"a\":[]},\"a\":\"\"}",
        "\t\r\n\"\"\r\n",
    ] {
        let mut r = reader(data);
        assert!(skip_value(&mut r).is_ok(), "{data}");
        assert!(finish(&mut r).is_ok(), "{data}");
    }
    for data in [
        "", " ", "[", "]", "[1", "[1,", "[1,]", "[,1]", "[1 2]", "{", "{\"a\"}", "{\"a\":}", "{\"a\":1,}",
        "{a:1}", "{\"a\":1 \"b\":2}", "1 2", "truefalse", "'a'", "01", "+1", ".5", "[1]]", "\u{feff}1", "/**/1",
    ] {
        let mut r = reader(data);
        let accepted = skip_value(&mut r).is_ok() && finish(&mut r).is_ok();
        assert!(!accepted, "{data}");
    }
}

#[test]
fn source_is_accessible() {
    let mut r = reader("true");
    assert_eq!(0, r.reader_ref().pos);
    assert!(next_bool(&mut r).unwrap());
    assert_eq!(4, r.reader_mut().pos);
    r.reader_mut().pos = 2;
    assert_eq!(2, r.reader_ref().pos);
}
