//! Incorrect usage, input errors and debugging.

use struson::reader::JsonStreamReader;
use struson::types::{
    ErrorKind, FillStep, PeekedValue, ReaderError, ReaderSettings, StackValue, Step,
    SyntaxErrorKind,
};
use struson::usage::{Misuse, Operation};

type Reader = JsonStreamReader<()>;

/// A reader which has received all of the data.
fn reader(data: &[u8]) -> Reader {
    with_settings(data, ReaderSettings::default())
}

fn with_settings(data: &[u8], settings: ReaderSettings) -> Reader {
    let mut reader = JsonStreamReader::new_custom((), settings);
    assert!(reader.prepare_fill() >= data.len());
    assert!(reader.fill_buffer(Ok(data)).is_ok());
    reader.prepare_fill();
    assert!(matches!(
        reader.fill_buffer(Ok(&[])),
        Ok(FillStep::EndOfInput)
    ));
    reader
}

fn ready<T>(result: Result<Step<T>, ReaderError>) -> T {
    match result {
        Ok(Step::Ready(value)) => value,
        Ok(Step::NeedInput) => panic!("should not need input"),
        Err(e) => panic!("unexpected error {e:?}"),
    }
}

#[test]
fn misuse_at_top_level() {
    let mut r = reader(b"1");
    for operation in [
        Operation::Peek,
        Operation::ReadValue,
        Operation::NextString,
        Operation::NextNumber,
        Operation::SkipValue,
        Operation::SkipToTopLevel,
    ] {
        assert_eq!(None, r.check_usage(operation));
    }
    assert_eq!(
        Some(Misuse::HasNextBeforeTopLevel),
        r.check_usage(Operation::HasNext)
    );
    assert_eq!(
        Some(Misuse::EndArrayOutsideArray),
        r.check_usage(Operation::EndArray)
    );
    assert_eq!(
        Some(Misuse::EndObjectOutsideObject),
        r.check_usage(Operation::EndObject)
    );
    assert_eq!(
        Some(Misuse::NameNotExpected),
        r.check_usage(Operation::NextName)
    );
    assert_eq!(
        Some(Misuse::NameNotExpected),
        r.check_usage(Operation::SkipName)
    );
    assert_eq!(
        Some(Misuse::TrailingBeforeTopLevel),
        r.check_usage(Operation::ConsumeTrailingWhitespace)
    );

    assert_eq!("1", ready(r.next_number_as_string()));
    assert_eq!(
        Some(Misuse::PeekBehindTopLevel),
        r.check_usage(Operation::Peek)
    );
    assert_eq!(
        Some(Misuse::HasNextSingleTopLevel),
        r.check_usage(Operation::HasNext)
    );
    assert_eq!(
        None,
        r.check_usage(Operation::ConsumeTrailingWhitespace)
    );
}

#[test]
fn misuse_inside_containers() {
    let mut r = reader(b"{\"a\":[\"x\"]}");
    ready(r.begin_object());
    assert_eq!(
        Some(Misuse::PeekAtMemberName),
        r.check_usage(Operation::Peek)
    );
    assert_eq!(
        Some(Misuse::ReadAtMemberName),
        r.check_usage(Operation::ReadValue)
    );
    assert_eq!(
        Some(Misuse::SkipAtMemberName),
        r.check_usage(Operation::SkipValue)
    );
    assert_eq!(
        Some(Misuse::TrailingInsideTopLevel),
        r.check_usage(Operation::ConsumeTrailingWhitespace)
    );
    assert_eq!(None, r.check_usage(Operation::EndObject));
    assert_eq!("a", ready(r.next_name_owned()));
    assert_eq!(
        Some(Misuse::EndObjectAtMemberValue),
        r.check_usage(Operation::EndObject)
    );
    assert_eq!(
        Some(Misuse::HasNextAtMemberValue),
        r.check_usage(Operation::HasNext)
    );
    ready(r.begin_array());
    assert_eq!(None, r.check_usage(Operation::EndArray));
    let mut string_reader = ready(r.next_string_reader());
    assert_eq!(
        Some(Misuse::PeekWithStringReader),
        r.check_usage(Operation::Peek)
    );
    assert_eq!(
        Some(Misuse::SkipToTopLevelWithStringReader),
        r.check_usage(Operation::SkipToTopLevel)
    );
    assert_eq!(
        Some(Misuse::TrailingWithStringReader),
        r.check_usage(Operation::ConsumeTrailingWhitespace)
    );
    let mut buf = [0_u8; 2];
    assert!(matches!(
        string_reader.read(&mut r, &mut buf),
        Ok(Step::Ready(1))
    ));
    assert_eq!(None, r.check_usage(Operation::Peek));
}

#[test]
fn unfinished_operations() {
    let mut r = JsonStreamReader::new(());
    r.prepare_fill();
    r.fill_buffer(Ok(&b"\"ab"[..])).unwrap();
    assert!(matches!(r.next_string(), Ok(Step::NeedInput)));
    assert_eq!(None, r.check_usage(Operation::NextString));
    assert_eq!(
        Some(Misuse::OtherOperationUnfinished),
        r.check_usage(Operation::Peek)
    );
    assert_eq!(
        Some(Misuse::OtherOperationUnfinished),
        r.check_usage(Operation::SkipValue)
    );
    r.prepare_fill();
    r.fill_buffer(Ok(&b"c\""[..])).unwrap();
    assert_eq!("abc", ready(r.next_string()));
}

#[test]
fn misuse_messages() {
    assert_eq!(
        "Incorrect reader usage: Cannot peek when string value reader is active",
        Misuse::PeekWithStringReader.message()
    );
    assert_eq!(
        "Incorrect reader usage: Cannot end object when member value is expected",
        Misuse::EndObjectAtMemberValue.message()
    );
    assert_eq!(
        "Incorrect reader usage: Cannot skip trailing whitespace when top-level value has not been fully consumed yet",
        Misuse::TrailingInsideTopLevel.message()
    );
}

#[test]
fn errors_of_the_source() {
    let mut r = JsonStreamReader::new(());
    r.prepare_fill();
    r.fill_buffer(Ok(&b"[ 1"[..])).unwrap();
    ready(r.begin_array());
    assert!(matches!(r.next_number_as_string(), Ok(Step::NeedInput)));
    r.prepare_fill();
    assert_eq!(
        FillStep::Retry,
        r.fill_buffer(Err(ErrorKind::Interrupted)).unwrap()
    );
    match r.fill_buffer(Err(ErrorKind::BrokenPipe)) {
        Err(ReaderError::IoError { error, location }) => {
            assert_eq!(ErrorKind::BrokenPipe, error.kind);
            assert_eq!("", error.message);
            assert_eq!(Some(2), location.data_pos);
        }
        _ => panic!("should have failed"),
    }
    // The operation has been given up, a new one starts behind it
    r.prepare_fill();
    r.fill_buffer(Ok(&b"2]"[..])).unwrap();
    assert_eq!("2", ready(r.next_number_as_string()));
    assert_eq!(Some(3), r.current_position(false).data_pos);
    ready(r.end_array());
}

/// A reader which has received the data. Then the operation needs input, but the source fails.
fn failed<T>(
    r: &mut Reader,
    operation: fn(&mut Reader) -> Result<Step<T>, ReaderError>,
    data_pos: u64,
) {
    assert!(matches!(operation(r), Ok(Step::NeedInput)));
    r.prepare_fill();
    match r.fill_buffer(Err(ErrorKind::Other)) {
        Err(ReaderError::IoError { error, location }) => {
            assert_eq!(ErrorKind::Other, error.kind);
            assert_eq!(Some(data_pos), location.data_pos);
            assert_eq!(Some(data_pos), r.current_position(false).data_pos);
        }
        _ => panic!("should have failed"),
    }
}

fn supply(r: &mut Reader, data: &[u8]) {
    assert!(r.prepare_fill() >= data.len());
    assert_eq!(FillStep::Filled, r.fill_buffer(Ok(data)).unwrap());
}

fn syntax_error<T>(result: Result<Step<T>, ReaderError>) -> (SyntaxErrorKind, Option<u64>) {
    match result {
        Err(ReaderError::SyntaxError(e)) => (e.kind, e.location.data_pos),
        _ => panic!("should have failed"),
    }
}

#[test]
fn operation_is_given_up_when_the_source_fails() {
    // The comma is forgotten
    let mut r = JsonStreamReader::new(());
    supply(&mut r, b"[1, ");
    ready(r.begin_array());
    assert_eq!("1", ready(r.next_number_as_string()));
    failed(&mut r, |r| r.peek(), 4);
    supply(&mut r, b"2]");
    assert_eq!(
        (SyntaxErrorKind::MissingComma, Some(4)),
        syntax_error(r.peek())
    );

    // The colon is forgotten
    let mut r = JsonStreamReader::new(());
    supply(&mut r, b"{\"a\":");
    ready(r.begin_object());
    assert_eq!("a", ready(r.next_name_owned()));
    failed(&mut r, |r| r.peek(), 5);
    supply(&mut r, b"1}");
    assert_eq!(
        (SyntaxErrorKind::MissingColon, Some(5)),
        syntax_error(r.peek())
    );

    // The start of the string is forgotten
    let mut r = JsonStreamReader::new(());
    supply(&mut r, b"\"ab\\");
    failed(&mut r, |r| r.next_string(), 3);
    supply(&mut r, b"c\"");
    assert_eq!(
        (SyntaxErrorKind::MalformedJson, Some(3)),
        syntax_error(r.next_string())
    );

    // The start of the literal is forgotten
    let mut r = JsonStreamReader::new(());
    supply(&mut r, b" tru");
    failed(&mut r, |r| r.next_bool(), 1);
    supply(&mut r, b"e");
    assert_eq!(
        (SyntaxErrorKind::MalformedJson, Some(1)),
        syntax_error(r.next_bool())
    );

    // The start of the comment is forgotten
    let mut r = JsonStreamReader::new_custom(
        (),
        ReaderSettings {
            allow_comments: true,
            ..Default::default()
        },
    );
    supply(&mut r, b"/*");
    failed(&mut r, |r| r.peek(), 2);
    supply(&mut r, b"null ");
    ready(r.next_null());

    // The name is forgotten, but it has been consumed
    let mut r = JsonStreamReader::new(());
    supply(&mut r, b"{\"a");
    ready(r.begin_object());
    failed(&mut r, |r| r.next_name_owned(), 3);
    assert_eq!(
        Some(Misuse::NameNotExpected),
        r.check_usage(Operation::NextName)
    );
    supply(&mut r, b":1}");
    assert_eq!("1", ready(r.next_number_as_string()));
    ready(r.end_object());

    // The arrays which have been entered for skipping are not left
    let mut r = JsonStreamReader::new(());
    supply(&mut r, b"[[1");
    failed(&mut r, |r| r.skip_value(), 2);
    supply(&mut r, b"]] ");
    ready(r.end_array());
    ready(r.end_array());
    assert_eq!(Some(4), r.current_position(false).data_pos);
}

#[test]
fn errors_of_the_source_between_tokens() {
    for (data, line, column, data_pos) in [
        (&b"[ "[..], 0, 2, 2),
        (b"[\r", 1, 0, 2),
        (b"[\n", 1, 0, 2),
        (b"[/", 0, 2, 2),
        (b"[/*", 0, 3, 3),
        (b"[/* *", 0, 5, 5),
        (b"[/* \r", 1, 0, 5),
        (b"[//\xC3", 0, 3, 3),
        (b"[tru", 0, 1, 1),
    ] {
        let mut r = JsonStreamReader::new_custom(
            (),
            ReaderSettings {
                allow_comments: true,
                ..Default::default()
            },
        );
        r.prepare_fill();
        r.fill_buffer(Ok(data)).unwrap();
        ready(r.begin_array());
        assert!(matches!(r.peek(), Ok(Step::NeedInput)));
        r.prepare_fill();
        match r.fill_buffer(Err(ErrorKind::TimedOut)) {
            Err(ReaderError::IoError { error, location }) => {
                assert_eq!(ErrorKind::TimedOut, error.kind);
                assert_eq!(Some(data_pos), location.data_pos);
                let line_pos = location.line_pos.unwrap();
                assert_eq!((line, column), (line_pos.line, line_pos.column));
            }
            _ => panic!("should have failed"),
        }
    }
}

#[test]
fn input_behind_malformed_data() {
    // A literal is consumed up to the byte which makes it malformed
    let mut r = reader(b"[trux]");
    ready(r.begin_array());
    assert_eq!(
        (SyntaxErrorKind::InvalidLiteral, Some(1)),
        syntax_error(r.peek())
    );
    ready(r.end_array());
    let mut r = reader(b"[nullx]");
    ready(r.begin_array());
    assert_eq!(
        (SyntaxErrorKind::TrailingDataAfterLiteral, Some(1)),
        syntax_error(r.peek())
    );
    assert_eq!(
        (SyntaxErrorKind::MalformedJson, Some(1)),
        syntax_error(r.peek())
    );

    // A literal in front of which the comma is missing is consumed, another token is not
    let mut r = reader(b"[1 true]");
    ready(r.begin_array());
    assert_eq!("1", ready(r.next_number_as_string()));
    assert_eq!(
        (SyntaxErrorKind::MissingComma, Some(3)),
        syntax_error(r.peek())
    );
    ready(r.end_array());
    let mut r = reader(b"[1 2]");
    ready(r.begin_array());
    assert_eq!("1", ready(r.next_number_as_string()));
    for _ in 0..2 {
        assert_eq!(
            (SyntaxErrorKind::MissingComma, Some(3)),
            syntax_error(r.peek())
        );
    }

    // The comma is forgotten
    let mut r = reader(b"[1, x");
    ready(r.begin_array());
    assert_eq!("1", ready(r.next_number_as_string()));
    assert_eq!(
        (SyntaxErrorKind::MalformedJson, Some(4)),
        syntax_error(r.peek())
    );
    let mut r = reader(b"[1,,2]");
    ready(r.begin_array());
    assert_eq!("1", ready(r.next_number_as_string()));
    assert_eq!(
        (SyntaxErrorKind::UnexpectedComma, Some(3)),
        syntax_error(r.peek())
    );
    assert_eq!("2", ready(r.next_number_as_string()));

    // An escape sequence is consumed up to the byte which makes it malformed
    for data in [&b"\"\\x1 "[..], b"\"\\uD800x1 ", b"\"\\u00g1 ", b"\"\x011 ", b"\"\xC3x1 "] {
        let mut r = reader(data);
        assert!(r.next_string().is_err());
        assert_eq!("1", ready(r.next_number_as_string()));
    }

    // So is the start of a comment
    let mut r = with_settings(
        b"/x1 ",
        ReaderSettings {
            allow_comments: true,
            ..Default::default()
        },
    );
    assert_eq!(
        (SyntaxErrorKind::IncompleteComment, Some(1)),
        syntax_error(r.peek())
    );
    assert_eq!("1", ready(r.next_number_as_string()));
    // Where comments are not allowed, they are not consumed
    let mut r = reader(b"/");
    for _ in 0..2 {
        assert_eq!(
            (SyntaxErrorKind::CommentsNotEnabled, Some(0)),
            syntax_error(r.peek())
        );
    }
}

#[test]
fn free_part_of_the_buffer() {
    let mut r = JsonStreamReader::new(());
    assert_eq!(1024, r.prepare_fill());
    supply(&mut r, b"[ ");
    assert_eq!(1022, r.prepare_fill());
    ready(r.begin_array());
    assert!(matches!(r.peek(), Ok(Step::NeedInput)));
    // All input has been processed
    assert_eq!(1024, r.prepare_fill());
    supply(&mut r, b" 12");
    assert!(matches!(r.next_number_as_string(), Ok(Step::NeedInput)));
    // The number stays at the start of the buffer
    assert_eq!(1022, r.prepare_fill());
    supply(&mut r, b"3, \"\\n");
    assert_eq!("123", ready(r.next_number_as_string()));
    assert!(matches!(r.next_string(), Ok(Step::NeedInput)));
    // The string has been moved out of the buffer
    assert_eq!(1024, r.prepare_fill());
    supply(&mut r, b"a\"]");
    assert_eq!("\na", ready(r.next_string()));
    ready(r.end_array());
}

#[test]
fn restriction_has_no_effect_on_skipping() {
    for restrict_number_values in [true, false] {
        let mut r = with_settings(
            b"[1e1000, [1E-100]] ",
            ReaderSettings {
                restrict_number_values,
                ..Default::default()
            },
        );
        ready(r.skip_value());
        assert_eq!(Some(18), r.current_position(false).data_pos);
        ready(r.consume_trailing_whitespace());
    }
}

#[test]
fn nothing_is_received_behind_the_end() {
    let mut r = reader(b"true");
    assert_eq!(
        FillStep::EndOfInput,
        r.fill_buffer(Ok(&b"x"[..])).unwrap()
    );
    assert!(ready(r.next_bool()));
    ready(r.consume_trailing_whitespace());
}

#[test]
fn buffer_is_reused() {
    let mut r = JsonStreamReader::new(());
    let spaces = [b' '; 1024];
    for _ in 0..5 {
        assert_eq!(1024, r.prepare_fill());
        r.fill_buffer(Ok(&spaces)).unwrap();
        assert!(matches!(r.next_null(), Ok(Step::NeedInput)));
    }
    assert_eq!(Some(5 * 1024), r.current_position(false).data_pos);
    r.prepare_fill();
    r.fill_buffer(Ok(&b"nu"[..])).unwrap();
    assert!(matches!(r.next_null(), Ok(Step::NeedInput)));
    assert_eq!(1022, r.prepare_fill());
    r.fill_buffer(Ok(&b"ll "[..])).unwrap();
    ready(r.next_null());
}

#[test]
fn description_of_text() {
    let mut r = JsonStreamReader::new(());
    r.prepare_fill();
    r.fill_buffer(Ok("[\"äöü\"]".as_bytes())).unwrap();
    let description = r.describe();
    let buffer = description.buffer.unwrap();
    assert_eq!(10, buffer.count);
    assert_eq!("[\"äöü\"]", buffer.text);
    assert!(buffer.invalid.is_none());
    assert!(description.is_empty);
    assert!(description.peeked.is_none());

    ready(r.begin_array());
    ready(r.peek());
    let description = r.describe();
    assert_eq!("äöü\"]", description.buffer.unwrap().text);
    assert_eq!(Some(PeekedValue::StringStart), description.peeked);
    assert_eq!(vec![StackValue::Array], description.stack);
    assert_eq!(1, description.place.byte_pos);
    assert_eq!(1, description.place.column);
    assert_eq!(1, description.json_path.unwrap().len());
    assert!(!description.expects_member_name);
    assert!(!description.is_string_value_reader_active);

    assert!(reader(b"1").describe().buffer.is_none());
}

#[test]
fn description_is_limited() {
    for (count, ellipsis) in [(44, false), (45, false), (46, true), (100, true)] {
        let text = "ä".repeat(count);
        let mut r = JsonStreamReader::new(());
        r.prepare_fill();
        r.fill_buffer(Ok(text.as_bytes())).unwrap();
        let buffer = r.describe().buffer.unwrap();
        assert_eq!(2 * count, buffer.count);
        let shown = "ä".repeat(count.min(45));
        if ellipsis {
            assert_eq!(format!("{shown}..."), buffer.text);
        } else {
            assert_eq!(shown, buffer.text);
        }
        assert!(buffer.invalid.is_none());
    }
}

#[test]
fn description_of_invalid_data() {
    for (prefix, shows_invalid) in [(0, true), (14, true), (15, false), (50, false)] {
        let mut data = vec![b'a'; prefix];
        data.push(0xC3);
        data.extend_from_slice(&[b'z'; 40]);
        let mut r = JsonStreamReader::new(());
        r.prepare_fill();
        r.fill_buffer(Ok(&data)).unwrap();
        let buffer = r.describe().buffer.unwrap();
        assert_eq!(format!("{}...", "a".repeat(prefix.min(45))), buffer.text);
        if shows_invalid {
            assert_eq!(data[prefix..prefix + 30].to_vec(), buffer.invalid.unwrap());
        } else {
            assert!(buffer.invalid.is_none());
        }
    }
    let mut r = JsonStreamReader::new(());
    r.prepare_fill();
    r.fill_buffer(Ok(&[b'a', 0xFF, 0xFE])).unwrap();
    let buffer = r.describe().buffer.unwrap();
    assert_eq!("a...", buffer.text);
    assert_eq!(vec![0xFF, 0xFE], buffer.invalid.unwrap());
}

#[test]
fn multiple_top_level_usage() {
    let settings = ReaderSettings {
        allow_multiple_top_level: true,
        ..Default::default()
    };
    let mut r = with_settings(b"1 2", settings);
    ready(r.skip_value());
    assert_eq!(None, r.check_usage(Operation::HasNext));
    assert_eq!(None, r.check_usage(Operation::Peek));
    assert!(ready(r.has_next()));
    assert_eq!("2", ready(r.next_number_as_string()));
}
