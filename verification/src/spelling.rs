//! How strings and numbers are written in a document, and that they are read as what they stand
//! for.
//!
//! Everything is written down here byte by byte, for documents as they are written and not for
//! the way in which they are read.

use vstd::prelude::*;
use vstd::utf8::*;

use crate::chars;
use crate::gaps;
use crate::model;
use crate::model::{Outcome, State, Task};
use crate::number;
use crate::position;
use crate::text;
use crate::text::{HexUnit, TextUnit};
use crate::types::{ErrorKind, ErrorModel, SyntaxErrorKind};

verus! {

// Strings
/// One way to write one character of a string.
pub enum Spelled {
    /// The character itself.
    Raw(char),
    /// `\` and the given byte.
    Short(u8),
    /// `\u` and four hexadecimal digits.
    Unicode(Seq<u8>),
    /// A surrogate pair: twice `\u` and four hexadecimal digits.
    Pair(Seq<u8>, Seq<u8>),
}

/// The value of a hexadecimal digit, be it written as lower or upper case letter.
pub open spec fn digit_value(digit: u8) -> Option<int> {
    if digit == 0x30 {
        Some(0)
    } else if digit == 0x31 {
        Some(1)
    } else if digit == 0x32 {
        Some(2)
    } else if digit == 0x33 {
        Some(3)
    } else if digit == 0x34 {
        Some(4)
    } else if digit == 0x35 {
        Some(5)
    } else if digit == 0x36 {
        Some(6)
    } else if digit == 0x37 {
        Some(7)
    } else if digit == 0x38 {
        Some(8)
    } else if digit == 0x39 {
        Some(9)
    } else if digit == 0x41 || digit == 0x61 {
        Some(10)
    } else if digit == 0x42 || digit == 0x62 {
        Some(11)
    } else if digit == 0x43 || digit == 0x63 {
        Some(12)
    } else if digit == 0x44 || digit == 0x64 {
        Some(13)
    } else if digit == 0x45 || digit == 0x65 {
        Some(14)
    } else if digit == 0x46 || digit == 0x66 {
        Some(15)
    } else {
        None
    }
}

/// Whether these are four hexadecimal digits.
#[verifier::opaque]
pub open spec fn is_hex(d: Seq<u8>) -> bool {
    d.len() == 4 && digit_value(d[0]) is Some && digit_value(d[1]) is Some && digit_value(d[2])
        is Some && digit_value(d[3]) is Some
}

/// The number which four hexadecimal digits stand for.
#[verifier::opaque]
pub open spec fn hex_sum(d: Seq<u8>) -> int {
    digit_value(d[0])->0 * 4096 + digit_value(d[1])->0 * 256 + digit_value(d[2])->0 * 16
        + digit_value(d[3])->0
}

/// The number of the character for `\` and the given byte.
pub open spec fn short_value(byte: u8) -> Option<int> {
    if byte == 0x22 {
        Some(0x22)
    } else if byte == 0x5C {
        Some(0x5C)
    } else if byte == 0x2F {
        Some(0x2F)
    } else if byte == 0x62 {
        Some(0x08)
    } else if byte == 0x66 {
        Some(0x0C)
    } else if byte == 0x6E {
        Some(0x0A)
    } else if byte == 0x72 {
        Some(0x0D)
    } else if byte == 0x74 {
        Some(0x09)
    } else {
        None
    }
}

/// Whether a character can be written so.
pub open spec fn is_spelled(piece: Spelled) -> bool {
    match piece {
        Spelled::Raw(c) => c as u32 >= 0x20 && c as u32 != 0x22 && c as u32 != 0x5C,
        Spelled::Short(byte) => short_value(byte) is Some,
        Spelled::Unicode(d) => is_hex(d) && !(0xD800 <= hex_sum(d) <= 0xDFFF),
        Spelled::Pair(high, low) => is_hex(high) && is_hex(low) && 0xD800 <= hex_sum(high) <= 0xDBFF
            && 0xDC00 <= hex_sum(low) <= 0xDFFF,
    }
}

/// The number of the character which is meant.
pub open spec fn spelled_number(piece: Spelled) -> int {
    match piece {
        Spelled::Raw(c) => c as int,
        Spelled::Short(byte) => short_value(byte)->0,
        Spelled::Unicode(d) => hex_sum(d),
        Spelled::Pair(high, low) => 0x10000 + (hex_sum(high) - 0xD800) * 0x400 + (hex_sum(low)
            - 0xDC00),
    }
}

pub open spec fn spelled_char(piece: Spelled) -> char {
    spelled_number(piece) as char
}

pub open spec fn spelled_bytes(piece: Spelled) -> Seq<u8> {
    match piece {
        Spelled::Raw(c) => encode_scalar(c as u32),
        Spelled::Short(byte) => seq![0x5Cu8, byte],
        Spelled::Unicode(d) => seq![0x5Cu8, 0x75u8] + d,
        Spelled::Pair(high, low) => seq![0x5Cu8, 0x75u8] + high + seq![0x5Cu8, 0x75u8] + low,
    }
}

/// Whether text can be written so.
#[verifier::opaque]
pub open spec fn is_spelling(pieces: Seq<Spelled>) -> bool {
    forall|i: int| 0 <= i < pieces.len() ==> is_spelled(#[trigger] pieces[i])
}

/// The text which is meant.
pub open spec fn meaning(pieces: Seq<Spelled>) -> Seq<char> {
    pieces.map_values(|piece: Spelled| spelled_char(piece))
}

/// What stands between the `"` of the string.
pub open spec fn spelling_bytes(pieces: Seq<Spelled>) -> Seq<u8>
    decreases pieces.len(),
{
    if pieces.len() == 0 {
        Seq::empty()
    } else {
        spelled_bytes(pieces[0]) + spelling_bytes(pieces.skip(1))
    }
}

proof fn lemma_digit(digit: u8)
    ensures
        text::hex_value(digit) is Some <==> digit_value(digit) is Some,
        digit_value(digit) is Some ==> text::hex_value(digit)->0 == digit_value(digit)->0 && 0
            <= digit_value(digit)->0 < 16,
{
}

proof fn lemma_hex(d: Seq<u8>, tail: Seq<u8>, eof: bool)
    requires
        is_hex(d),
    ensures
        0 <= hex_sum(d) <= 0xFFFF,
        text::hex_unit(d + tail, eof) == HexUnit::Value(hex_sum(d) as u32),
        d.len() == 4,
{
    reveal(is_hex);
    reveal(hex_sum);
    let s = d + tail;
    assert forall|i: int| 0 <= i < 4 implies s[i] == d[i] by {}
    lemma_digit(d[0]);
    lemma_digit(d[1]);
    lemma_digit(d[2]);
    lemma_digit(d[3]);
    assert forall|i: int| 0 <= i < 4 implies #[trigger] text::hex_value(s[i]) is Some by {
        lemma_digit(s[i]);
    }
}

/// The scalar value of a character which is written with an escape sequence.
pub proof fn lemma_spelled_number(piece: Spelled)
    requires
        is_spelled(piece),
    ensures
        0 <= spelled_number(piece) <= 0x10FFFF,
        is_scalar(spelled_number(piece) as u32),
        spelled_char(piece) as u32 == spelled_number(piece),
{
    match piece {
        Spelled::Raw(c) => {
            char_is_scalar(c);
        },
        Spelled::Short(_) => {},
        Spelled::Unicode(d) => {
            lemma_hex(d, Seq::empty(), true);
        },
        Spelled::Pair(high, low) => {
            lemma_hex(high, Seq::empty(), true);
            lemma_hex(low, Seq::empty(), true);
        },
    }
}

/// A character which is written as it is, is recognized.
proof fn lemma_raw(c: u32, tail: Seq<u8>, eof: bool)
    requires
        is_scalar(c),
        c >= 0x20,
        c != 0x22,
        c != 0x5C,
    ensures
        text::text_unit(encode_scalar(c) + tail, eof) == TextUnit::Raw(
            encode_scalar(c).len() as usize,
        ),
        text::unit_bytes(
            TextUnit::Raw(encode_scalar(c).len() as usize),
            encode_scalar(c) + tail,
        ) == encode_scalar(c),
{
    let enc = encode_scalar(c);
    let s = enc + tail;
    chars::lemma_encode_scalar(c);
    let rest = pop_first_scalar(enc);
    assert(valid_first_scalar(enc));
    assert(decode_utf8(enc).len() == 1 + decode_utf8(rest).len());
    assert(rest.len() == 0) by {
        if rest.len() > 0 {
            assert(decode_utf8(rest).len() > 0);
        }
    }
    assert(s.take(enc.len() as int) =~= enc);
    assert(s[0] == enc[0]);
    if c < 0x80 {
        assert((c & 0x7F) == c) by (bit_vector)
            requires
                c < 0x80,
        ;
    } else {
        assert(enc[0] >= 0x80);
        gaps::lemma_multibyte_head(enc, tail, eof);
    }
}

/// An escape sequence is recognized.
#[verifier::spinoff_prover]
#[verifier::rlimit(40)]
proof fn lemma_escape_unit(piece: Spelled, tail: Seq<u8>, eof: bool)
    requires
        is_spelled(piece),
        !(piece is Raw),
    ensures
        text::text_unit(spelled_bytes(piece) + tail, eof) == (TextUnit::Escape {
            len: spelled_bytes(piece).len() as usize,
            c: spelled_number(piece) as u32,
        }),
        spelled_bytes(piece).len() <= 12,
{
    let s = spelled_bytes(piece) + tail;
    match piece {
        Spelled::Raw(_) => {},
        Spelled::Short(byte) => {
            assert(s[0] == 0x5C && s[1] == byte);
        },
        Spelled::Unicode(d) => {
            lemma_hex(d, tail, eof);
            assert(s[0] == 0x5C && s[1] == 0x75);
            assert(s.skip(2) =~= d + tail);
        },
        Spelled::Pair(high, low) => {
            let behind = seq![0x5Cu8, 0x75u8] + low + tail;
            lemma_hex(high, behind, eof);
            lemma_hex(low, tail, eof);
            assert(s[0] == 0x5C && s[1] == 0x75);
            let a = s.skip(2);
            assert(a =~= high + behind);
            assert(a[4] == 0x5C && a[5] == 0x75);
            assert(a.skip(6) =~= low + tail);
        },
    }
}

/// A character is recognized, however it is written.
pub proof fn lemma_spelled_unit(piece: Spelled, tail: Seq<u8>, eof: bool)
    requires
        is_spelled(piece),
    ensures
        ({
            let s = spelled_bytes(piece) + tail;
            let unit = text::text_unit(s, eof);
            &&& unit is Raw || unit is Escape
            &&& text::unit_len(unit) == spelled_bytes(piece).len()
            &&& text::unit_bytes(unit, s) == encode_scalar(spelled_number(piece) as u32)
        }),
{
    match piece {
        Spelled::Raw(c) => {
            char_is_scalar(c);
            chars::lemma_encode_scalar(c as u32);
            lemma_raw(c as u32, tail, eof);
        },
        _ => {
            lemma_escape_unit(piece, tail, eof);
        },
    }
}

/// Reading on behind one character.
#[verifier::spinoff_prover]
#[verifier::rlimit(40)]
proof fn lemma_spelled_step(st: State, piece: Spelled, behind: Seq<u8>) -> (next: State)
    requires
        position::countable(st),
        st.peeked is None,
        valid_utf8(st.text),
        is_spelled(piece),
        st.rest == spelled_bytes(piece) + behind,
    ensures
        model::text_run(st) == model::text_run(next),
        position::travelled(st, next),
        next == (State { place: next.place, text: next.text, rest: behind, ..st }),
        valid_utf8(next.text),
        st.collects() ==> decode_utf8(next.text) == decode_utf8(st.text).push(spelled_char(piece)),
        !st.collects() ==> next.text == st.text,
{
    lemma_spelled_unit(piece, behind, st.eof);
    lemma_spelled_number(piece);
    let unit = text::text_unit(st.rest, st.eof);
    let next = model::text_moved(st, unit);
    assert(next.rest =~= behind);
    position::lemma_travel_text_unit(st, next);
    let c = spelled_number(piece) as u32;
    chars::lemma_encode_scalar(c);
    chars::lemma_decode_concat(st.text, encode_scalar(c));
    assert(chars::char_of(c) == spelled_char(piece));
    if st.collects() {
        assert(decode_utf8(next.text) =~= decode_utf8(st.text).push(spelled_char(piece)));
    }
    next
}

proof fn lemma_meaning(before: Seq<char>, pieces: Seq<Spelled>)
    ensures
        pieces.len() == 0 ==> before + meaning(pieces) == before,
        pieces.len() > 0 ==> before + meaning(pieces) == before.push(spelled_char(pieces[0]))
            + meaning(pieces.skip(1)),
{
    if pieces.len() == 0 {
        assert(before + meaning(pieces) =~= before);
    } else {
        assert(before + meaning(pieces) =~= before.push(spelled_char(pieces[0])) + meaning(
            pieces.skip(1),
        ));
    }
}

pub proof fn lemma_first_spelled(pieces: Seq<Spelled>)
    requires
        is_spelling(pieces),
        pieces.len() > 0,
    ensures
        is_spelled(pieces[0]),
        is_spelling(pieces.skip(1)),
{
    reveal(is_spelling);
    let others = pieces.skip(1);
    assert forall|i: int| 0 <= i < others.len() implies is_spelled(#[trigger] others[i]) by {
        assert(others[i] == pieces[i + 1]);
    }
}

/// Text is read on behind what is written, however it is written.
#[verifier::spinoff_prover]
#[verifier::rlimit(40)]
pub proof fn lemma_spelling(st: State, pieces: Seq<Spelled>, tail: Seq<u8>) -> (next: State)
    requires
        position::countable(st),
        st.peeked is None,
        valid_utf8(st.text),
        is_spelling(pieces),
        st.rest == spelling_bytes(pieces) + tail,
    ensures
        model::text_run(st) == model::text_run(next),
        position::travelled(st, next),
        next == (State { place: next.place, text: next.text, rest: tail, ..st }),
        valid_utf8(next.text),
        st.collects() ==> decode_utf8(next.text) == decode_utf8(st.text) + meaning(pieces),
        !st.collects() ==> next.text == st.text,
    decreases pieces.len(),
{
    if pieces.len() == 0 {
        assert(st.rest =~= tail);
        position::lemma_stay(st, st);
        lemma_meaning(decode_utf8(st.text), pieces);
        st
    } else {
        let piece = pieces[0];
        let others = pieces.skip(1);
        let behind = spelling_bytes(others) + tail;
        lemma_first_spelled(pieces);
        assert(st.rest =~= spelled_bytes(piece) + behind);
        let mid = lemma_spelled_step(st, piece, behind);
        let next = lemma_spelling(mid, others, tail);
        position::lemma_travel_on(st, mid, next);
        lemma_meaning(decode_utf8(st.text), pieces);
        next
    }
}

/// A `"` ends the text.
#[verifier::spinoff_prover]
#[verifier::rlimit(40)]
pub proof fn lemma_spelled_text(st: State, pieces: Seq<Spelled>, tail: Seq<u8>) -> (next: State)
    requires
        position::countable(st),
        st.peeked is None,
        valid_utf8(st.text),
        is_spelling(pieces),
        st.rest == spelling_bytes(pieces) + (seq![0x22u8] + tail),
    ensures
        model::text_run(st) == Outcome::Ready((), next),
        position::travelled(st, next),
        next == (State { place: next.place, text: next.text, rest: tail, ..st }),
        st.collects() ==> decode_utf8(next.text) == decode_utf8(st.text) + meaning(pieces),
        !st.collects() ==> next.text == st.text,
{
    let mid = lemma_spelling(st, pieces, seq![0x22u8] + tail);
    assert(mid.rest[0] == 0x22);
    let next = mid.moved(1, 1);
    assert(next.rest =~= tail);
    position::lemma_travel_text_unit(mid, next);
    position::lemma_travel_on(st, mid, next);
    next
}

/// Whether the input starts with something which may not stand in a string, and which error is
/// the answer to it: a control character, an unknown or malformed escape sequence, half of a
/// surrogate pair, or the end of the input.
pub open spec fn text_defect(s: Seq<u8>, eof: bool) -> Option<SyntaxErrorKind> {
    if s.len() == 0 {
        if eof {
            Some(SyntaxErrorKind::IncompleteDocument)
        } else {
            None
        }
    } else if s[0] < 0x20 {
        Some(SyntaxErrorKind::NotEscapedControlCharacter)
    } else if s[0] == 0x5C && s.len() >= 2 {
        if s[1] == 0x75 {
            if s.len() >= 6 {
                let first = s.subrange(2, 6);
                if !is_hex(first) {
                    Some(SyntaxErrorKind::MalformedEscapeSequence)
                } else if 0xDC00 <= hex_sum(first) <= 0xDFFF {
                    Some(SyntaxErrorKind::UnpairedSurrogatePairEscapeSequence)
                } else if 0xD800 <= hex_sum(first) <= 0xDBFF && s.len() >= 12 {
                    let second = s.subrange(8, 12);
                    if s[6] != 0x5C || s[7] != 0x75 {
                        Some(SyntaxErrorKind::UnpairedSurrogatePairEscapeSequence)
                    } else if !is_hex(second) {
                        Some(SyntaxErrorKind::MalformedEscapeSequence)
                    } else if !(0xDC00 <= hex_sum(second) <= 0xDFFF) {
                        Some(SyntaxErrorKind::UnpairedSurrogatePairEscapeSequence)
                    } else {
                        None
                    }
                } else {
                    None
                }
            } else {
                None
            }
        } else if short_value(s[1]) is None {
            Some(SyntaxErrorKind::UnknownEscapeSequence)
        } else {
            None
        }
    } else {
        None
    }
}

proof fn lemma_no_hex(d: Seq<u8>, tail: Seq<u8>, eof: bool)
    requires
        d.len() == 4,
        !is_hex(d),
    ensures
        text::hex_unit(d + tail, eof) is Malformed,
{
    reveal(is_hex);
    let s = d + tail;
    let i: int = if digit_value(d[0]) is None {
        0
    } else if digit_value(d[1]) is None {
        1
    } else if digit_value(d[2]) is None {
        2
    } else {
        3
    };
    assert(s[i] == d[i]);
    lemma_digit(s[i]);
    assert(text::hex_value(s[i]) is None);
}

#[verifier::spinoff_prover]
#[verifier::rlimit(40)]
proof fn lemma_text_defect(s: Seq<u8>, eof: bool)
    ensures
        text_defect(s, eof) matches Some(kind) ==> text::text_unit(s, eof) == text::text_fault(kind),
{
    if text_defect(s, eof) is Some && s.len() >= 6 && s[0] == 0x5C && s[1] == 0x75 {
        let first = s.subrange(2, 6);
        let a = s.skip(2);
        assert(a =~= first + s.skip(6));
        if !is_hex(first) {
            lemma_no_hex(first, s.skip(6), eof);
        } else {
            lemma_hex(first, s.skip(6), eof);
            if s.len() >= 12 {
                let second = s.subrange(8, 12);
                assert(a.skip(6) =~= second + s.skip(12));
                assert(a[4] == s[6] && a[5] == s[7]);
                if is_hex(second) {
                    lemma_hex(second, s.skip(12), eof);
                } else {
                    lemma_no_hex(second, s.skip(12), eof);
                }
            }
        }
    }
}

/// Text is rejected where something stands in it which may not, with an error which says what it
/// is and where it stands. Bytes which are no UTF-8 are rejected too.
#[verifier::spinoff_prover]
#[verifier::rlimit(40)]
pub proof fn lemma_defective_text(st: State, pieces: Seq<Spelled>, bad: Seq<u8>) -> (next: State)
    requires
        position::countable(st),
        st.peeked is None,
        valid_utf8(st.text),
        is_spelling(pieces),
        st.rest == spelling_bytes(pieces) + bad,
    ensures
        position::travelled(st, next),
        next == (State { place: next.place, text: next.text, rest: bad, ..st }),
        text_defect(bad, st.eof) matches Some(kind) ==> (model::text_run(st) matches Outcome::Failed(
            e,
            _,
        ) && e == (ErrorModel::Syntax { kind, location: next.position() })),
        bad.len() >= 4 && bad[0] >= 0x80 && !valid_first_scalar(bad) ==> (model::text_run(
            st,
        ) matches Outcome::Failed(e, _) && e is Io && e->Io_kind == ErrorKind::InvalidData
            && e->Io_location == next.position()),
{
    let next = lemma_spelling(st, pieces, bad);
    lemma_text_defect(bad, st.eof);
    next
}

/// A character which is written with `\uXXXX` escape sequences is read as that character,
/// whichever case its hexadecimal digits have: the four digits, or twice four for a surrogate
/// pair, only have to have the right values.
#[verifier::spinoff_prover]
#[verifier::rlimit(40)]
pub proof fn law_unicode_escape_in_any_case(
    c: char,
    first: Seq<u8>,
    second: Seq<u8>,
    tail: Seq<u8>,
    eof: bool,
)
    requires
        is_hex(first),
        c as int >= 0x10000 ==> is_hex(second) && hex_sum(first) == 0xD800 + (c as int - 0x10000)
            / 0x400 && hex_sum(second) == 0xDC00 + (c as int - 0x10000) % 0x400,
        (c as int) < 0x10000 ==> hex_sum(first) == c as int,
    ensures
        (c as int) < 0x10000 ==> text::text_unit(seq![0x5Cu8, 0x75u8] + first + tail, eof) == (
        TextUnit::Escape { len: 6, c: c as u32 }),
        c as int >= 0x10000 ==> text::text_unit(
            seq![0x5Cu8, 0x75u8] + first + seq![0x5Cu8, 0x75u8] + second + tail,
            eof,
        ) == (TextUnit::Escape { len: 12, c: c as u32 }),
{
    let one = Spelled::Unicode(first);
    let pair = Spelled::Pair(first, second);
    if (c as int) < 0x10000 {
        lemma_scalar(c);
        assert(is_spelled(one));
        lemma_escape_unit(one, tail, eof);
        lemma_hex(first, tail, eof);
        assert(spelled_bytes(one) == seq![0x5Cu8, 0x75u8] + first);
    } else {
        lemma_scalar(c);
        assert(is_spelled(pair));
        lemma_escape_unit(pair, tail, eof);
        lemma_hex(first, tail, eof);
        lemma_hex(second, tail, eof);
        assert(spelled_number(pair) == c as int);
        assert(spelled_bytes(pair) == seq![0x5Cu8, 0x75u8] + first + seq![0x5Cu8, 0x75u8] + second);
    }
}

/// The numbers of characters, and of the surrogate pairs which stand for them.
proof fn lemma_scalar(c: char)
    ensures
        0 <= c as int <= 0x10FFFF,
        !(0xD800 <= c as int <= 0xDFFF),
        c as int >= 0x10000 ==> {
            let high = 0xD800 + (c as int - 0x10000) / 0x400;
            let low = 0xDC00 + (c as int - 0x10000) % 0x400;
            &&& 0xD800 <= high <= 0xDBFF
            &&& 0xDC00 <= low <= 0xDFFF
            &&& 0x10000 + (high - 0xD800) * 0x400 + (low - 0xDC00) == c as int
        },
{
    char_is_scalar(c);
}

// Numbers
/// One of the ten digits.
pub open spec fn is_decimal(byte: u8) -> bool {
    byte == 0x30 || byte == 0x31 || byte == 0x32 || byte == 0x33 || byte == 0x34 || byte == 0x35
        || byte == 0x36 || byte == 0x37 || byte == 0x38 || byte == 0x39
}

/// One or more digits.
pub open spec fn is_decimals(s: Seq<u8>) -> bool {
    s.len() > 0 && forall|i: int| 0 <= i < s.len() ==> is_decimal(#[trigger] s[i])
}

/// The exponent of a number: `e` or `E`, a sign, and digits.
pub struct ExponentText {
    pub letter: u8,
    pub sign: Option<u8>,
    pub digits: Seq<u8>,
}

/// A number as it is written.
pub struct NumberText {
    pub minus: bool,
    pub integer: Seq<u8>,
    /// The digits behind the decimal point, if there is one.
    pub fraction: Option<Seq<u8>>,
    pub exponent: Option<ExponentText>,
}

/// Whether a number may be written so.
pub open spec fn is_number_text(n: NumberText) -> bool {
    &&& is_decimals(n.integer)
    &&& n.integer[0] == 0x30 ==> n.integer.len() == 1
    &&& n.fraction matches Some(digits) ==> is_decimals(digits)
    &&& n.exponent matches Some(e) ==> {
        &&& e.letter == 0x65 || e.letter == 0x45
        &&& e.sign matches Some(sign) ==> sign == 0x2B || sign == 0x2D
        &&& is_decimals(e.digits)
    }
}

pub open spec fn exponent_bytes(e: Option<ExponentText>) -> Seq<u8> {
    match e {
        None => Seq::empty(),
        Some(e) => seq![e.letter] + (match e.sign {
            Some(sign) => seq![sign],
            None => Seq::empty(),
        } + e.digits),
    }
}

pub open spec fn fraction_bytes(n: NumberText) -> Seq<u8> {
    match n.fraction {
        Some(digits) => seq![0x2Eu8] + (digits + exponent_bytes(n.exponent)),
        None => exponent_bytes(n.exponent),
    }
}

/// The bytes of a number.
pub open spec fn number_bytes(n: NumberText) -> Seq<u8> {
    if n.minus {
        seq![0x2Du8] + (n.integer + fraction_bytes(n))
    } else {
        n.integer + fraction_bytes(n)
    }
}

/// Whether a number is short enough where numbers are restricted: it has at most 100 characters,
/// and its exponent is at most 99, so that only its last two digits may be other than 0.
pub open spec fn is_moderate(n: NumberText) -> bool {
    &&& number_bytes(n).len() <= 100
    &&& n.exponent matches Some(e) ==> forall|i: int|
        0 <= i < e.digits.len() - 2 ==> #[trigger] e.digits[i] == 0x30
}

/// What may directly follow a number or literal: the end of the input, whitespace, the start of a
/// comment, or a character of the structure of the document.
pub open spec fn may_follow(s: Seq<u8>, eof: bool) -> bool {
    if s.len() == 0 {
        eof
    } else {
        ||| s[0] == 0x20
        ||| s[0] == 0x09
        ||| s[0] == 0x0A
        ||| s[0] == 0x0D
        ||| s[0] == 0x2C
        ||| s[0] == 0x5D
        ||| s[0] == 0x7D
        ||| s[0] == 0x3A
        ||| s[0] == 0x2F
    }
}

/// The digits at the start of `a` followed by something else.
proof fn lemma_decimals(a: Seq<u8>, b: Seq<u8>)
    requires
        forall|i: int| 0 <= i < a.len() ==> is_decimal(#[trigger] a[i]),
        b.len() > 0 ==> !is_decimal(b[0]),
    ensures
        number::digits_len(a + b) == a.len(),
        (a + b).skip(a.len() as int) == b,
    decreases a.len(),
{
    let s = a + b;
    assert(s.skip(a.len() as int) =~= b);
    if a.len() == 0 {
        assert(s =~= b);
    } else {
        assert(s[0] == a[0]);
        let t = a.skip(1);
        assert forall|i: int| 0 <= i < t.len() implies is_decimal(#[trigger] t[i]) by {
            assert(t[i] == a[i + 1]);
        }
        assert(s.skip(1) =~= t + b);
        lemma_decimals(t, b);
    }
}

proof fn lemma_exponent_text(e: Option<ExponentText>)
    requires
        e matches Some(e) ==> {
            &&& e.letter == 0x65 || e.letter == 0x45
            &&& e.sign matches Some(sign) ==> sign == 0x2B || sign == 0x2D
            &&& is_decimals(e.digits)
        },
    ensures
        number::is_exponent_part(exponent_bytes(e)),
        exponent_bytes(e).len() > 0 ==> !is_decimal(exponent_bytes(e)[0]),
        e matches Some(e1) ==> number::behind_sign(exponent_bytes(e).skip(1)) == e1.digits,
{
    if let Some(e1) = e {
        let s = exponent_bytes(e);
        let tail = s.skip(1);
        assert(s[0] == e1.letter);
        match e1.sign {
            Some(sign) => {
                assert(tail =~= seq![sign] + e1.digits);
                assert(tail.skip(1) =~= e1.digits);
            },
            None => {
                assert(tail =~= e1.digits);
                assert(is_decimal(tail[0]));
            },
        }
        lemma_decimals(e1.digits, Seq::empty());
        assert(e1.digits + Seq::<u8>::empty() =~= e1.digits);
    }
}

proof fn lemma_fraction_text(n: NumberText)
    requires
        is_number_text(n),
    ensures
        number::is_fraction_and_exponent(fraction_bytes(n)),
        fraction_bytes(n).len() > 0 ==> !is_decimal(fraction_bytes(n)[0]),
{
    lemma_exponent_text(n.exponent);
    if let Some(digits) = n.fraction {
        let s = fraction_bytes(n);
        assert(s[0] == 0x2E);
        assert(s.skip(1) =~= digits + exponent_bytes(n.exponent));
        lemma_decimals(digits, exponent_bytes(n.exponent));
        assert(s.skip(1 + digits.len() as int) =~= exponent_bytes(n.exponent));
    }
}

/// What is written as number is one.
pub proof fn lemma_number_text(n: NumberText)
    requires
        is_number_text(n),
    ensures
        number::is_json_number(number_bytes(n)),
{
    lemma_fraction_text(n);
    let s = n.integer + fraction_bytes(n);
    lemma_decimals(n.integer, fraction_bytes(n));
    assert(s[0] == n.integer[0]);
    assert(is_decimal(n.integer[0]));
    assert(number::is_unsigned_number(s));
    if n.minus {
        assert(number_bytes(n)[0] == 0x2D);
        assert(number_bytes(n).skip(1) =~= s);
    }
}

/// The value of digits of which only the last two may be other than 0.
proof fn lemma_small_value(s: Seq<u8>)
    requires
        forall|i: int| 0 <= i < s.len() ==> is_decimal(#[trigger] s[i]),
    ensures
        number::digits_value(0, s) <= 99 <==> (forall|i: int|
            0 <= i < s.len() - 2 ==> #[trigger] s[i] == 0x30),
    decreases s.len(),
{
    reveal_with_fuel(number::digits_value, 3);
    if s.len() > 2 {
        let t = s.skip(1);
        assert forall|i: int| 0 <= i < t.len() implies is_decimal(#[trigger] t[i]) by {
            assert(t[i] == s[i + 1]);
        }
        assert(is_decimal(s[0]));
        let zeros = forall|i: int| 0 <= i < s.len() - 2 ==> #[trigger] s[i] == 0x30;
        let other_zeros = forall|i: int| 0 <= i < t.len() - 2 ==> #[trigger] t[i] == 0x30;
        if s[0] == 0x30 {
            lemma_small_value(t);
            assert(number::digits_value(0, s) == number::digits_value(0, t));
            if zeros {
                assert forall|i: int| 0 <= i < t.len() - 2 implies #[trigger] t[i] == 0x30 by {
                    assert(t[i] == s[i + 1]);
                }
            }
            if other_zeros {
                assert forall|i: int| 0 <= i < s.len() - 2 implies #[trigger] s[i] == 0x30 by {
                    if i > 0 {
                        assert(s[i] == t[i - 1]);
                    }
                }
            }
        } else {
            assert(number::digits_value(0, s) == number::digits_value((s[0] - 0x30) as nat, t));
            lemma_large_value((s[0] - 0x30) as nat, t);
            assert(t.len() >= 2);
            assert(!zeros);
        }
    } else if s.len() > 0 {
        assert(is_decimal(s[0]));
        if s.len() == 2 {
            assert(is_decimal(s[1]));
            assert(s.skip(1)[0] == s[1]);
            assert(s.skip(1).skip(1).len() == 0);
        }
    }
}

proof fn lemma_large_value(value: nat, s: Seq<u8>)
    requires
        forall|i: int| 0 <= i < s.len() ==> is_decimal(#[trigger] s[i]),
    ensures
        number::digits_value(value, s) >= value,
        value >= 1 && s.len() >= 1 ==> number::digits_value(value, s) >= 10,
        value >= 1 && s.len() >= 2 ==> number::digits_value(value, s) >= 100,
        value >= 10 && s.len() >= 1 ==> number::digits_value(value, s) >= 100,
    decreases s.len(),
{
    if s.len() > 0 {
        let t = s.skip(1);
        assert(is_decimal(s[0]));
        assert forall|i: int| 0 <= i < t.len() implies is_decimal(#[trigger] t[i]) by {
            assert(t[i] == s[i + 1]);
        }
        lemma_large_value((value * 10 + (s[0] - 0x30)) as nat, t);
    }
}

/// The exponent behind bytes which are no part of it.
proof fn lemma_magnitude(a: Seq<u8>, b: Seq<u8>)
    requires
        forall|i: int| 0 <= i < a.len() ==> #[trigger] a[i] != 0x65 && a[i] != 0x45,
    ensures
        number::exponent_magnitude(a + b) == number::exponent_magnitude(b),
    decreases a.len(),
{
    let s = a + b;
    if a.len() == 0 {
        assert(s =~= b);
    } else {
        let t = a.skip(1);
        assert(s[0] == a[0]);
        assert(s.skip(1) =~= t + b);
        assert forall|i: int| 0 <= i < t.len() implies #[trigger] t[i] != 0x65 && t[i] != 0x45 by {
            assert(t[i] == a[i + 1]);
        }
        lemma_magnitude(t, b);
    }
}

/// The restriction of numbers.
#[verifier::spinoff_prover]
#[verifier::rlimit(40)]
proof fn lemma_moderate(n: NumberText)
    requires
        is_number_text(n),
    ensures
        is_moderate(n) <==> number::exponent_magnitude(number_bytes(n)) <= 99 && number_bytes(
            n,
        ).len() <= 100,
{
    let point = match n.fraction {
        Some(digits) => seq![0x2Eu8] + digits,
        None => Seq::empty(),
    };
    let sign = if n.minus {
        seq![0x2Du8]
    } else {
        Seq::empty()
    };
    let front = sign + n.integer + point;
    let e = exponent_bytes(n.exponent);
    assert(number_bytes(n) =~= front + e);
    assert forall|i: int| 0 <= i < front.len() implies #[trigger] front[i] != 0x65 && front[i]
        != 0x45 by {
        let j = i - sign.len();
        if j >= 0 && j < n.integer.len() {
            assert(front[i] == n.integer[j]);
            assert(is_decimal(n.integer[j]));
        } else if j > n.integer.len() {
            let digits = n.fraction->0;
            assert(front[i] == digits[j - n.integer.len() - 1]);
            assert(is_decimal(digits[j - n.integer.len() - 1]));
        }
    }
    lemma_magnitude(front, e);
    lemma_exponent_text(n.exponent);
    if let Some(x) = n.exponent {
        assert(e[0] == x.letter);
        lemma_small_value(x.digits);
    }
}

/// Reading on behind bytes which continue a number.
proof fn lemma_scan_run(st: State, s: Seq<u8>, tail: Seq<u8>) -> (next: State)
    requires
        st.task is Number || st.task is SkipNumber,
        number::scan_from(model::number_scan(st.task), s) is Some,
        st.rest == s + tail,
    ensures
        model::number_rest_run(st) == model::number_rest_run(next),
        next == (State {
            task: model::with_scan(
                st.task,
                number::scan_from(model::number_scan(st.task), s)->0,
            ),
            text: if st.task is Number {
                st.text + s
            } else {
                st.text
            },
            rest: tail,
            ..st
        }),
    decreases s.len(),
{
    if s.len() == 0 {
        assert(st.rest =~= tail);
        assert(st.text + s =~= st.text);
        st
    } else {
        assert(st.rest[0] == s[0]);
        let scan = number::number_next(model::number_scan(st.task), s[0])->0;
        let mid = model::number_moved(st, scan);
        assert(mid.rest =~= s.skip(1) + tail);
        let next = lemma_scan_run(mid, s.skip(1), tail);
        assert(st.text.push(s[0]) + s.skip(1) =~= st.text + s);
        next
    }
}

/// What a number which is written so is read as. Where numbers are restricted, one which is too
/// long or has a too large exponent is rejected.
#[verifier::spinoff_prover]
#[verifier::rlimit(40)]
pub proof fn lemma_read_number(st: State, n: NumberText, tail: Seq<u8>) -> (next: State)
    requires
        position::countable(st),
        st.peeked is None,
        st.task == Task::Number(number::number_start()) || st.task == Task::SkipNumber(
            number::number_start(),
        ),
        st.text == Seq::<u8>::empty(),
        is_number_text(n),
        st.rest == number_bytes(n) + tail,
        may_follow(tail, st.eof),
    ensures
        position::travelled(st, next),
        next == (State { place: next.place, task: Task::Idle, rest: tail, ..st }),
        st.task is Number && st.settings.restrict_number_values && !is_moderate(n) ==> (
        model::number_rest_run(st) matches Outcome::Failed(e, _) && e == (
        ErrorModel::UnsupportedNumberValue {
            number: model::text_chars(number_bytes(n)),
            location: st.position(),
        })),
        !(st.task is Number && st.settings.restrict_number_values && !is_moderate(n))
            ==> model::number_rest_run(st) == Outcome::Ready(
            if st.task is Number {
                number_bytes(n)
            } else {
                Seq::empty()
            },
            next,
        ),
        valid_utf8(number_bytes(n)),
{
    let s = number_bytes(n);
    lemma_number_text(n);
    lemma_moderate(n);
    number::law_accepts_json_numbers(s);
    number::law_restriction(s);
    number::lemma_scan_len(number::number_start(), s);
    number::lemma_number_ascii(number::number_start(), s);
    chars::lemma_ascii_valid(s);
    let end = lemma_scan_run(st, s, tail);
    assert(Seq::<u8>::empty() + s =~= s);
    let scan = number::scan_from(number::number_start(), s)->0;
    assert(tail.len() > 0 ==> number::number_next(scan, tail[0]) is None);
    assert(model::number_rest_run(st) == model::number_end(end));
    let next = model::number_counted(end);
    assert forall|i: int| 0 <= i < s.len() implies position::plain(
        #[trigger] position::unconsumed(st)[i],
    ) by {
        lemma_number_plain(n, i);
        assert(position::unconsumed(st)[i] == s[i]);
    }
    assert(st.rest.skip(s.len() as int) =~= tail);
    position::lemma_travel_plain(st, next, s.len() as int);
    next
}

/// Every byte of a number takes up one column.
proof fn lemma_number_plain(n: NumberText, i: int)
    requires
        is_number_text(n),
        0 <= i < number_bytes(n).len(),
    ensures
        position::plain(number_bytes(n)[i]),
{
    let s = number_bytes(n);
    let f = fraction_bytes(n);
    let e = exponent_bytes(n.exponent);
    let j = if n.minus {
        i - 1
    } else {
        i
    };
    if j < 0 {
        assert(s[i] == 0x2D);
    } else if j < n.integer.len() {
        assert(s[i] == n.integer[j]);
        assert(is_decimal(n.integer[j]));
    } else {
        let k = j - n.integer.len();
        assert(s[i] == f[k]);
        let m = match n.fraction {
            Some(digits) => k - 1 - digits.len(),
            None => k,
        };
        if m < 0 {
            let digits = n.fraction->0;
            if k > 0 {
                assert(f[k] == digits[k - 1]);
                assert(is_decimal(digits[k - 1]));
            }
        } else {
            assert(f[k] == e[m]);
            let x = n.exponent->0;
            let signs = match x.sign {
                Some(sign) => seq![sign],
                None => Seq::empty(),
            };
            if m > 0 {
                if m - 1 < signs.len() {
                    assert(e[m] == signs[m - 1]);
                } else {
                    assert(e[m] == x.digits[m - 1 - signs.len()]);
                    assert(is_decimal(x.digits[m - 1 - signs.len()]));
                }
            }
        }
    }
}

/// The digits at the start of `s`.
proof fn lemma_digit_run(s: Seq<u8>)
    ensures
        number::digits_len(s) <= s.len(),
        forall|i: int| 0 <= i < number::digits_len(s) ==> is_decimal(#[trigger] s[i]),
    decreases s.len(),
{
    if s.len() > 0 && number::is_digit(s[0]) {
        let t = s.skip(1);
        lemma_digit_run(t);
        assert forall|i: int| 0 <= i < number::digits_len(s) implies is_decimal(#[trigger] s[i]) by {
            if i > 0 {
                assert(s[i] == t[i - 1]);
            }
        }
    }
}

/// The parts of an exponent.
proof fn lemma_split_exponent(s: Seq<u8>) -> (e: Option<ExponentText>)
    requires
        number::is_exponent_part(s),
    ensures
        exponent_bytes(e) == s,
        e matches Some(e1) ==> {
            &&& e1.letter == 0x65 || e1.letter == 0x45
            &&& e1.sign matches Some(sign) ==> sign == 0x2B || sign == 0x2D
            &&& is_decimals(e1.digits)
        },
{
    if s.len() == 0 {
        assert(s =~= Seq::<u8>::empty());
        None
    } else {
        let tail = s.skip(1);
        let digits = number::behind_sign(tail);
        lemma_digit_run(digits);
        let sign = if tail.len() > 0 && (tail[0] == 0x2D || tail[0] == 0x2B) {
            Some(tail[0])
        } else {
            None
        };
        let e = Some(ExponentText { letter: s[0], sign, digits });
        assert(exponent_bytes(e) =~= s);
        e
    }
}

/// The parts of a number behind its sign.
proof fn lemma_split_unsigned(s: Seq<u8>) -> (n: NumberText)
    requires
        number::is_unsigned_number(s),
    ensures
        !n.minus,
        is_number_text(n),
        number_bytes(n) == s,
{
    lemma_digit_run(s);
    let len = if s[0] == 0x30 {
        1int
    } else {
        number::digits_len(s) as int
    };
    assert(number::digits_len(s) >= 1);
    let integer = s.take(len);
    let f = s.skip(len);
    assert(s =~= integer + f);
    if f.len() > 0 && f[0] == 0x2E {
        let t = f.skip(1);
        lemma_digit_run(t);
        let count = number::digits_len(t) as int;
        let digits = t.take(count);
        assert(f.skip(1 + count) =~= t.skip(count));
        let exponent = lemma_split_exponent(t.skip(count));
        let n = NumberText { minus: false, integer, fraction: Some(digits), exponent };
        assert(f =~= seq![0x2Eu8] + (digits + t.skip(count)));
        n
    } else {
        let exponent = lemma_split_exponent(f);
        NumberText { minus: false, integer, fraction: None, exponent }
    }
}

/// Every number which is accepted can be written as a number.
proof fn lemma_split_number(s: Seq<u8>) -> (n: NumberText)
    requires
        number::is_json_number(s),
    ensures
        is_number_text(n),
        number_bytes(n) == s,
{
    if s[0] == 0x2D {
        let n = lemma_split_unsigned(s.skip(1));
        let m = NumberText { minus: true, ..n };
        assert(number_bytes(m) =~= s);
        m
    } else {
        lemma_split_unsigned(s)
    }
}

/// Whether bytes are the text of a number.
pub open spec fn spells_number(s: Seq<u8>) -> bool {
    exists|n: NumberText| #[trigger] is_number_text(n) && number_bytes(n) == s
}

proof fn lemma_number_result(st: State)
    requires
        st.task is Number,
        number::scan_from(number::number_start(), st.text) == Some(model::number_scan(st.task)),
    ensures
        model::number_rest_run(st) matches Outcome::Ready(s, next) ==> {
            &&& spells_number(s)
            &&& st.text + st.rest == s + next.rest
            &&& may_follow(next.rest, next.eof)
            &&& next.eof == st.eof
        },
    decreases st.rest.len(),
{
    if st.rest.len() > 0 && number::number_next(
        model::number_scan(st.task),
        st.rest[0],
    ) is Some {
        let scan = number::number_next(model::number_scan(st.task), st.rest[0])->0;
        let next = model::number_moved(st, scan);
        number::lemma_scan_push(number::number_start(), st.text, st.rest[0]);
        assert(next.text + next.rest =~= st.text + st.rest);
        lemma_number_result(next);
    } else {
        number::law_accepts_json_numbers(st.text);
        if number::is_json_number(st.text) {
            let n = lemma_split_number(st.text);
            assert(is_number_text(n) && number_bytes(n) == st.text);
        }
    }
}

/// Whatever is read as number is the text of one: what is accepted has an integer part without
/// superfluous zeros, and digits behind a decimal point and behind the `e` of an exponent. It is
/// what the input started with, and is not directly followed by other data.
pub proof fn law_only_numbers(st: State)
    requires
        st.task == Task::Number(number::number_start()),
        st.text == Seq::<u8>::empty(),
    ensures
        model::number_rest_run(st) matches Outcome::Ready(s, next) ==> spells_number(s) && st.rest
            == s + next.rest && may_follow(next.rest, next.eof),
{
    lemma_number_result(st);
    assert(st.text + st.rest =~= st.rest);
}

/// A number which is directly followed by other data is rejected behind the number.
#[verifier::spinoff_prover]
#[verifier::rlimit(40)]
pub proof fn lemma_trailing_number(st: State, n: NumberText, tail: Seq<u8>) -> (next: State)
    requires
        position::countable(st),
        st.peeked is None,
        st.task == Task::Number(number::number_start()),
        st.text == Seq::<u8>::empty(),
        is_number_text(n),
        st.settings.restrict_number_values ==> is_moderate(n),
        st.rest == number_bytes(n) + tail,
        tail.len() > 0,
        !may_follow(tail, st.eof),
        !is_decimal(tail[0]),
        tail[0] != 0x2E,
        tail[0] != 0x65,
        tail[0] != 0x45,
    ensures
        position::travelled(st, next),
        next == (State { place: next.place, task: Task::Idle, rest: tail, ..st }),
        model::number_rest_run(st) matches Outcome::Failed(e, _) && e == (ErrorModel::Syntax {
            kind: SyntaxErrorKind::TrailingDataAfterNumber,
            location: next.position(),
        }),
{
    let s = number_bytes(n);
    lemma_number_text(n);
    lemma_moderate(n);
    number::law_accepts_json_numbers(s);
    number::law_restriction(s);
    number::lemma_scan_len(number::number_start(), s);
    let end = lemma_scan_run(st, s, tail);
    let scan = number::scan_from(number::number_start(), s)->0;
    assert(number::number_next(scan, tail[0]) is None);
    assert(model::number_rest_run(st) == model::number_end(end));
    let next = model::number_counted(end);
    assert forall|i: int| 0 <= i < s.len() implies position::plain(
        #[trigger] position::unconsumed(st)[i],
    ) by {
        lemma_number_plain(n, i);
        assert(position::unconsumed(st)[i] == s[i]);
    }
    assert(st.rest.skip(s.len() as int) =~= tail);
    position::lemma_travel_plain(st, next, s.len() as int);
    next
}

/// The start of a number where digits are missing: behind the minus sign, behind the decimal
/// point, or behind the `e` and sign of the exponent.
pub open spec fn unfinished(n: NumberText, s: Seq<u8>) -> bool {
    ||| s == seq![0x2Du8]
    ||| s == number_bytes(NumberText { fraction: None, exponent: None, ..n }).push(0x2E)
    ||| n.exponent matches Some(e) && s == number_bytes(NumberText { exponent: None, ..n }) + (seq![
        e.letter,
    ] + match e.sign {
        Some(sign) => seq![sign],
        None => Seq::empty(),
    })
}

/// What is missing is one digit.
#[verifier::spinoff_prover]
#[verifier::rlimit(40)]
proof fn lemma_unfinished(n: NumberText, s: Seq<u8>)
    requires
        is_number_text(n),
        unfinished(n, s),
    ensures
        number::is_json_number(s.push(0x30)),
        !number::is_json_number(s),
{
    let digit = seq![0x30u8];
    assert(is_decimals(digit));
    if s == seq![0x2Du8] {
        let m = NumberText { minus: true, integer: digit, fraction: None, exponent: None };
        lemma_number_text(m);
        assert(number_bytes(m) =~= s.push(0x30));
        assert(s.skip(1).len() == 0);
    } else if s == number_bytes(NumberText { fraction: None, exponent: None, ..n }).push(0x2E) {
        let m = NumberText { fraction: Some(digit), exponent: None, ..n };
        lemma_number_text(m);
        assert(number_bytes(m) =~= s.push(0x30));
        if number::is_json_number(s) {
            let k = lemma_split_number(s);
            lemma_last_decimal(k);
        }
    } else {
        let e = n.exponent->0;
        let m = NumberText {
            exponent: Some(ExponentText { digits: digit, ..e }),
            ..n
        };
        lemma_number_text(m);
        assert(number_bytes(m) =~= s.push(0x30));
        if number::is_json_number(s) {
            let k = lemma_split_number(s);
            lemma_last_decimal(k);
        }
    }
}

/// A number ends with a digit.
proof fn lemma_last_decimal(n: NumberText)
    requires
        is_number_text(n),
    ensures
        number_bytes(n).len() > 0,
        is_decimal(number_bytes(n).last()),
{
    let s = number_bytes(n);
    match n.exponent {
        Some(e) => {
            assert(s.last() == e.digits.last());
            assert(is_decimal(e.digits[e.digits.len() - 1]));
        },
        None => match n.fraction {
            Some(digits) => {
                assert(s.last() == digits.last());
                assert(is_decimal(digits[digits.len() - 1]));
            },
            None => {
                assert(s.last() == n.integer.last());
                assert(is_decimal(n.integer[n.integer.len() - 1]));
            },
        },
    }
}

/// The scan in front of the last byte.
proof fn lemma_scan_front(scan: number::NumberScan, s: Seq<u8>, byte: u8)
    requires
        number::scan_from(scan, s.push(byte)) is Some,
    ensures
        number::scan_from(scan, s) matches Some(end) && number::number_next(end, byte)
            == number::scan_from(scan, s.push(byte)),
        s.len() > 0 ==> number::scan_from(scan, s)->0.phase != number::NumberPhase::Start,
    decreases s.len(),
{
    let t = s.push(byte);
    if s.len() == 0 {
        assert(t.skip(1) =~= Seq::<u8>::empty());
        reveal_with_fuel(number::scan_from, 2);
    } else {
        assert(t[0] == s[0]);
        assert(t.skip(1) =~= s.skip(1).push(byte));
        let next = number::number_next(scan, s[0])->0;
        lemma_scan_front(next, s.skip(1), byte);
        if s.len() == 1 {
            assert(s.skip(1) =~= Seq::<u8>::empty());
        }
    }
}

/// A number in which digits are missing is rejected where it starts.
#[verifier::spinoff_prover]
#[verifier::rlimit(40)]
pub proof fn lemma_malformed_number(st: State, n: NumberText, s: Seq<u8>, tail: Seq<u8>)
    requires
        st.task == Task::Number(number::number_start()),
        is_number_text(n),
        unfinished(n, s),
        st.rest == s + tail,
        tail.len() == 0 ==> st.eof,
        tail.len() > 0 ==> !is_decimal(tail[0]) && tail[0] != 0x2B && tail[0] != 0x2D,
    ensures
        model::number_rest_run(st) matches Outcome::Failed(e, _) && e == (ErrorModel::Syntax {
            kind: SyntaxErrorKind::MalformedNumber,
            location: st.position(),
        }),
        s.len() > 0,
        s[0] == 0x2D || is_decimal(s[0]),
{
    lemma_unfinished(n, s);
    number::law_accepts_json_numbers(s.push(0x30));
    number::law_accepts_json_numbers(s);
    lemma_scan_front(number::number_start(), s, 0x30);
    let end = lemma_scan_run(st, s, tail);
    let scan = number::scan_from(number::number_start(), s)->0;
    assert(is_decimal(n.integer[0]));
    assert(s.len() > 0 && (s[0] == 0x2D || is_decimal(s[0])));
    assert(!number::number_complete(scan.phase));
    assert(tail.len() > 0 ==> number::number_next(scan, tail[0]) is None);
    assert(model::number_rest_run(st) == model::number_end(end));
}

} // verus!
