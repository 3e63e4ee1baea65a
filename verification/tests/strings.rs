//! Reading strings piecewise.

use struson::reader::JsonStreamReader;
use struson::string_reader::{previous_error_message, StringReadError, StringValueReader};
use struson::types::{ErrorKind, ReaderError, Step, SyntaxErrorKind};

struct Source {
    data: Vec<u8>,
    pos: usize,
    chunk_size: usize,
}

type Reader = JsonStreamReader<Source>;

fn reader(data: &str, chunk_size: usize) -> Reader {
    JsonStreamReader::new(Source {
        data: data.as_bytes().to_vec(),
        pos: 0,
        chunk_size,
    })
}

fn feed(reader: &mut Reader) {
    let limit = reader.prepare_fill();
    let source = reader.reader_mut();
    let start = source.pos;
    let end = source
        .data
        .len()
        .min(start + source.chunk_size)
        .min(start + limit);
    source.pos = end;
    let chunk = source.data[start..end].to_vec();
    reader.fill_buffer(Ok(&chunk)).unwrap();
}

fn start(r: &mut Reader) -> StringValueReader {
    loop {
        match r.next_string_reader() {
            Ok(Step::Ready(string_reader)) => return string_reader,
            Ok(Step::NeedInput) => feed(r),
            Err(e) => panic!("unexpected error {e:?}"),
        }
    }
}

fn read(
    string_reader: &mut StringValueReader,
    r: &mut Reader,
    buf: &mut [u8],
) -> Result<usize, StringReadError> {
    loop {
        match string_reader.read(r, buf)? {
            Step::Ready(count) => return Ok(count),
            Step::NeedInput => feed(r),
        }
    }
}

fn read_to_end(r: &mut Reader, buf_size: usize) -> Result<Vec<u8>, StringReadError> {
    let mut string_reader = start(r);
    let mut buf = vec![0_u8; buf_size];
    let mut content = Vec::new();
    loop {
        let count = read(&mut string_reader, r, &mut buf)?;
        if count == 0 {
            assert_eq!(0, read(&mut string_reader, r, &mut buf)?);
            return Ok(content);
        }
        content.extend_from_slice(&buf[..count]);
    }
}

#[test]
fn piecewise_reading_is_like_reading_the_whole() {
    let data = "\"a\u{e4}\\n\u{20ac}\\uD83D\\uDE00\u{1f600}\\\\z\" ";
    let expected = "a\u{e4}\n\u{20ac}\u{1f600}\u{1f600}\\z";
    for chunk_size in [1, 2, 7, 1024] {
        for buf_size in [1, 2, 3, 4, 5, 100] {
            let mut r = reader(data, chunk_size);
            assert_eq!(
                expected.as_bytes(),
                read_to_end(&mut r, buf_size).unwrap().as_slice()
            );
            let position = r.current_position(false);
            assert_eq!(Some(data.len() as u64 - 1), position.data_pos);
        }
    }
}

#[test]
fn reading_continues_behind_the_string() {
    let mut r = reader("[\"ab\", true]", 1024);
    loop {
        match r.begin_array().unwrap() {
            Step::Ready(()) => break,
            Step::NeedInput => feed(&mut r),
        }
    }
    let mut string_reader = start(&mut r);
    let mut buf = [0_u8; 2];
    assert_eq!(2, read(&mut string_reader, &mut r, &mut buf).unwrap());
    assert_eq!(b"ab", &buf);
    assert_eq!(0, read(&mut string_reader, &mut r, &mut buf).unwrap());
    loop {
        match r.next_bool().unwrap() {
            Step::Ready(value) => {
                assert!(value);
                break;
            }
            Step::NeedInput => feed(&mut r),
        }
    }
}

#[test]
fn remaining_bytes_of_a_character_are_kept() {
    let mut r = reader("\"\u{1f600}x\"", 1024);
    let mut string_reader = start(&mut r);
    let mut content = Vec::new();
    for _ in 0..5 {
        let mut buf = [0_u8; 1];
        assert_eq!(1, read(&mut string_reader, &mut r, &mut buf).unwrap());
        content.push(buf[0]);
    }
    assert_eq!("\u{1f600}x".as_bytes(), content.as_slice());
    let mut buf = [0_u8; 1];
    assert_eq!(0, read(&mut string_reader, &mut r, &mut buf).unwrap());
}

#[test]
fn empty_buffer() {
    let mut r = reader("\"a\"", 1024);
    let mut string_reader = start(&mut r);
    assert_eq!(0, read(&mut string_reader, &mut r, &mut []).unwrap());
    // Behind the bytes which are read the buffer does not change
    let mut buf = [7_u8; 4];
    assert_eq!(1, read(&mut string_reader, &mut r, &mut buf).unwrap());
    assert_eq!([b'a', 7, 7, 7], buf);
}

#[test]
fn message_of_repeated_failures() {
    assert_eq!(
        "previous error 'Other': IO error",
        previous_error_message("Other", "IO error")
    );
}

#[test]
fn failed_reads() {
    let mut r = reader("\"a\\x\"", 1024);
    let mut string_reader = start(&mut r);
    let mut buf = [0_u8; 1];
    assert_eq!(1, read(&mut string_reader, &mut r, &mut buf).unwrap());
    match read(&mut string_reader, &mut r, &mut buf) {
        Err(StringReadError::Failed(ReaderError::SyntaxError(e))) => {
            assert_eq!(SyntaxErrorKind::UnknownEscapeSequence, e.kind);
            assert_eq!(Some(2), e.location.data_pos);
        }
        _ => panic!("should have failed"),
    }
    for _ in 0..2 {
        match read(&mut string_reader, &mut r, &mut buf) {
            Err(StringReadError::FailedBefore(ReaderError::SyntaxError(e))) => {
                assert_eq!(SyntaxErrorKind::UnknownEscapeSequence, e.kind);
                assert_eq!(Some(2), e.location.data_pos);
            }
            _ => panic!("should have failed"),
        }
    }
}

#[test]
fn recorded_errors() {
    let mut r = reader("\"abc\"", 3);
    let mut string_reader = start(&mut r);
    let mut buf = [0_u8; 4];
    assert!(matches!(
        string_reader.read(&mut r, &mut buf),
        Ok(Step::NeedInput)
    ));
    r.prepare_fill();
    match r.fill_buffer(Err(ErrorKind::TimedOut)) {
        Err(e) => string_reader.record_error(&e),
        Ok(_) => panic!("should have failed"),
    }
    assert_eq!(Some(3), r.current_position(false).data_pos);
    match string_reader.read(&mut r, &mut buf) {
        Err(StringReadError::FailedBefore(ReaderError::IoError { error, .. })) => {
            assert_eq!(ErrorKind::TimedOut, error.kind);
        }
        _ => panic!("should have failed"),
    }
}

#[test]
fn abandoned_read() {
    let mut r = reader("\"abcd\"", 3);
    let mut string_reader = start(&mut r);
    let mut buf = [0_u8; 10];
    assert!(matches!(
        string_reader.read(&mut r, &mut buf),
        Ok(Step::NeedInput)
    ));
    assert_eq!(b"ab", &buf[..2]);
    string_reader.abandon_read();
    assert_eq!(2, read(&mut string_reader, &mut r, &mut buf).unwrap());
    assert_eq!(b"cd", &buf[..2]);
}
