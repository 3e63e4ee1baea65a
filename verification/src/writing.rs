//! Text which is written as JSON string is read back.

use vstd::prelude::*;
use vstd::utf8::*;

use crate::chars;
use crate::model;
use crate::model::{Outcome, State, Task};
use crate::text;
use crate::text::{HexUnit, TextUnit};

verus! {

/// The hexadecimal digit for a value below 16.
pub open spec fn hex_digit(value: int) -> u8 {
    if value < 10 {
        (0x30 + value) as u8
    } else {
        (0x61 + value - 10) as u8
    }
}

/// Four hexadecimal digits for a value which fits into 16 bits.
#[verifier::opaque]
pub open spec fn hex_digits(value: int) -> Seq<u8> {
    seq![
        hex_digit(value / 4096),
        hex_digit(value / 256 % 16),
        hex_digit(value / 16 % 16),
        hex_digit(value % 16),
    ]
}

/// The escape sequence `\uXXXX` for a value which fits into 16 bits.
pub open spec fn unicode_escape(value: int) -> Seq<u8> {
    seq![0x5Cu8, 0x75u8] + hex_digits(value)
}

/// How a character can be written with `\uXXXX` escape sequences: one, or a surrogate pair.
pub open spec fn escaped_char(c: u32) -> Seq<u8> {
    if c < 0x10000 {
        unicode_escape(c as int)
    } else {
        unicode_escape(0xD800 + (c - 0x10000) / 0x400) + unicode_escape(
            0xDC00 + (c - 0x10000) % 0x400,
        )
    }
}

/// How a character is written inside a JSON string: `"`, `\` and control characters with an
/// escape sequence, all others as they are.
pub open spec fn written_char(c: char) -> Seq<u8> {
    if c as u32 == 0x22 || c as u32 == 0x5C {
        seq![0x5Cu8, c as u8]
    } else if (c as u32) < 0x20 {
        escaped_char(c as u32)
    } else {
        encode_scalar(c as u32)
    }
}

/// How text is written inside a JSON string.
pub open spec fn written(text: Seq<char>) -> Seq<u8>
    decreases text.len(),
{
    if text.len() == 0 {
        Seq::empty()
    } else {
        written_char(text[0]) + written(text.skip(1))
    }
}

proof fn lemma_hex_digits(value: int, tail: Seq<u8>, eof: bool)
    requires
        0 <= value <= 0xFFFF,
    ensures
        hex_digits(value).len() == 4,
        text::hex_unit(hex_digits(value) + tail, eof) == HexUnit::Value(value as u32),
{
    reveal(hex_digits);
    let s = hex_digits(value) + tail;
    assert(value / 4096 < 16);
    assert(text::hex_value(s[0]) == Some((value / 4096) as u32));
    assert(text::hex_value(s[1]) == Some((value / 256 % 16) as u32));
    assert(text::hex_value(s[2]) == Some((value / 16 % 16) as u32));
    assert(text::hex_value(s[3]) == Some((value % 16) as u32));
    assert(value == (value / 4096) * 4096 + (value / 256 % 16) * 256 + (value / 16 % 16) * 16 + value
        % 16);
}

/// A `\uXXXX` escape sequence for a value which is no surrogate.
proof fn lemma_single_escape(value: int, tail: Seq<u8>, eof: bool)
    requires
        0 <= value <= 0xFFFF,
        !(0xD800 <= value <= 0xDFFF),
    ensures
        text::text_unit(unicode_escape(value) + tail, eof) == (TextUnit::Escape {
            len: 6,
            c: value as u32,
        }),
{
    lemma_hex_digits(value, tail, eof);
    let s = unicode_escape(value) + tail;
    assert(s.skip(2) =~= hex_digits(value) + tail);
}

/// Two `\uXXXX` escape sequences for a surrogate pair.
proof fn lemma_escape_pair(high: int, low: int, tail: Seq<u8>, eof: bool)
    requires
        0xD800 <= high <= 0xDBFF,
        0xDC00 <= low <= 0xDFFF,
    ensures
        text::text_unit(unicode_escape(high) + unicode_escape(low) + tail, eof)
            == (TextUnit::Escape { len: 12, c: text::surrogate_pair(high as u32, low as u32) }),
{
    let s = unicode_escape(high) + unicode_escape(low) + tail;
    let behind = unicode_escape(low) + tail;
    lemma_hex_digits(high, behind, eof);
    lemma_hex_digits(low, tail, eof);
    let a = s.skip(2);
    assert(a =~= hex_digits(high) + behind);
    assert(a[4] == 0x5C && a[5] == 0x75);
    assert(a.skip(6) =~= hex_digits(low) + tail);
}

/// A character which is written with `\uXXXX` escape sequences is read back.
pub proof fn law_unicode_escape(c: u32, tail: Seq<u8>, eof: bool)
    requires
        is_scalar(c),
    ensures
        text::text_unit(escaped_char(c) + tail, eof) == (TextUnit::Escape {
            len: if c < 0x10000 {
                6
            } else {
                12
            },
            c,
        }),
{
    if c < 0x10000 {
        lemma_single_escape(c as int, tail, eof);
    } else {
        let high = 0xD800 + (c - 0x10000) / 0x400;
        let low = 0xDC00 + (c - 0x10000) % 0x400;
        lemma_escape_pair(high, low, tail, eof);
        assert(text::surrogate_pair(high as u32, low as u32) == c);
    }
}

/// A character which is written as it is is read back.
proof fn lemma_raw_char(c: u32, tail: Seq<u8>, eof: bool)
    requires
        is_scalar(c),
        c >= 0x20,
        c != 0x22,
        c != 0x5C,
    ensures
        ({
            let enc = encode_scalar(c);
            let unit = text::text_unit(enc + tail, eof);
            unit == TextUnit::Raw(enc.len() as usize) && text::unit_bytes(unit, enc + tail) == enc
        }),
{
    let enc = encode_scalar(c);
    let s = enc + tail;
    chars::lemma_encode_scalar(c);
    assert(valid_first_scalar(enc));
    let rest = pop_first_scalar(enc);
    assert(decode_utf8(enc).len() == 1 + decode_utf8(rest).len());
    assert(rest.len() == 0) by {
        if rest.len() > 0 {
            assert(decode_utf8(rest).len() > 0);
        }
    }
    assert(length_of_first_scalar(enc) == enc.len());
    assert(s[0] == enc[0]);
    assert(enc.len() > 1 ==> s[1] == enc[1]);
    assert(enc.len() > 2 ==> s[2] == enc[2]);
    assert(enc.len() > 3 ==> s[3] == enc[3]);
    assert(s.take(enc.len() as int) =~= enc);
    if c < 0x80 {
        assert((c & 0x7F) == c) by (bit_vector)
            requires
                c < 0x80,
        ;
    }
}

/// A written character is read back.
proof fn lemma_written_char(c: char, tail: Seq<u8>, eof: bool)
    ensures
        ({
            let w = written_char(c);
            let unit = text::text_unit(w + tail, eof);
            &&& unit is Raw || unit is Escape
            &&& text::unit_len(unit) == w.len()
            &&& text::unit_bytes(unit, w + tail) == encode_scalar(c as u32)
        }),
{
    let w = written_char(c);
    let s = w + tail;
    let n = c as u32;
    if n == 0x22 || n == 0x5C {
        assert(s[0] == 0x5C && s[1] == n);
    } else if n < 0x20 {
        lemma_hex_digits(n as int, tail, eof);
        law_unicode_escape(n, tail, eof);
    } else {
        lemma_raw_char(n, tail, eof);
    }
}

/// Reading on behind a written character.
proof fn lemma_written_step(st: State, c: char, behind: Seq<u8>)
    requires
        st.task == Task::Text,
        valid_utf8(st.text),
        st.rest == written_char(c) + behind,
    ensures
        ({
            let next = model::text_moved(st, text::text_unit(st.rest, st.eof));
            &&& next.task == Task::Text
            &&& next.rest == behind
            &&& valid_utf8(next.text)
            &&& decode_utf8(next.text) == decode_utf8(st.text).push(c)
            &&& model::string_rest_run(st) == model::string_rest_run(next)
        }),
{
    lemma_written_char(c, behind, st.eof);
    let unit = text::text_unit(st.rest, st.eof);
    let next = model::text_moved(st, unit);
    assert(next.rest =~= behind);
    char_is_scalar(c);
    chars::lemma_encode_scalar(c as u32);
    chars::lemma_decode_concat(st.text, encode_scalar(c as u32));
    assert(chars::char_of(c as u32) == c);
    assert(decode_utf8(next.text) =~= decode_utf8(st.text).push(c));
}

/// What is written between the `"` of a JSON string is read back, and the input behind the
/// closing `"` is left.
pub proof fn law_written_text_is_read_back(st: State, content: Seq<char>, tail: Seq<u8>)
    requires
        st.task == Task::Text,
        valid_utf8(st.text),
        st.rest == written(content) + seq![0x22u8] + tail,
    ensures
        model::string_rest_run(st) matches Outcome::Ready(result, s) && result == decode_utf8(st.text)
            + content && s.rest == tail && s.task == Task::Idle,
    decreases content.len(),
{
    if content.len() == 0 {
        assert(st.rest =~= seq![0x22u8] + tail);
        assert(st.rest.skip(1) =~= tail);
        assert(decode_utf8(st.text) + content =~= decode_utf8(st.text));
    } else {
        let c = content[0];
        let behind = written(content.skip(1)) + seq![0x22u8] + tail;
        assert(st.rest =~= written_char(c) + behind);
        lemma_written_step(st, c, behind);
        let next = model::text_moved(st, text::text_unit(st.rest, st.eof));
        law_written_text_is_read_back(next, content.skip(1), tail);
        assert(decode_utf8(st.text).push(c) + content.skip(1) =~= decode_utf8(st.text) + content);
    }
}

} // verus!
