//! Recognizing the content of strings and member names, one character or escape sequence at
//! a time.
//!
//! Every unit is judged on the bytes which are available. It is `Incomplete` as long as more
//! bytes could decide it.

use vstd::prelude::*;
use vstd::slice::slice_subrange;
use vstd::utf8::*;

use crate::types::{Fault, SyntaxErrorKind};
use crate::chars::{self, read_utf8_multibyte, CharUnit};

verus! {

/// The length of the longest part of the input which is only recognized as a whole: an escaped
/// surrogate pair.
pub const LONGEST_UNIT: usize = 12;

/// What the content of a string or member name starts with.
#[derive(Clone, Copy, Debug)]
pub enum TextUnit {
    /// More input is needed.
    Incomplete,
    /// The closing `"`.
    End,
    /// A character which stands for itself, of the given number of bytes.
    Raw(usize),
    /// An escape sequence of `len` bytes for the character with number `c`.
    Escape { len: usize, c: u32 },
    /// Malformed content.
    Fault(Fault),
}

/// What four hexadecimal digits are expected to be.
#[derive(Clone, Copy, Debug)]
pub enum HexUnit {
    /// More input is needed.
    Incomplete,
    /// The number which the digits stand for.
    Value(u32),
    /// Malformed digits.
    Malformed,
}

/// The value of a hexadecimal digit.
pub open spec fn hex_value(digit: u8) -> Option<u32> {
    if 0x30 <= digit <= 0x39 {
        Some((digit - 0x30) as u32)
    } else if 0x61 <= digit <= 0x66 {
        Some((digit - 0x61 + 10) as u32)
    } else if 0x41 <= digit <= 0x46 {
        Some((digit - 0x41 + 10) as u32)
    } else {
        None
    }
}

/// The number which the four hexadecimal digits at the start of `s` stand for.
pub open spec fn hex_number(s: Seq<u8>) -> u32 {
    (hex_value(s[0])->0 * 4096 + hex_value(s[1])->0 * 256 + hex_value(s[2])->0 * 16 + hex_value(
        s[3],
    )->0) as u32
}

/// What `s` starts with, where four hexadecimal digits are expected.
pub open spec fn hex_unit(s: Seq<u8>, eof: bool) -> HexUnit {
    if exists|i: int| 0 <= i < 4 && i < s.len() && #[trigger] hex_value(s[i]) is None {
        HexUnit::Malformed
    } else if s.len() >= 4 {
        HexUnit::Value(hex_number(s))
    } else if eof {
        HexUnit::Malformed
    } else {
        HexUnit::Incomplete
    }
}

/// The text unit for input which ends too early.
pub open spec fn cut_text(eof: bool, kind: SyntaxErrorKind) -> TextUnit {
    if eof {
        TextUnit::Fault(Fault::Syntax(kind))
    } else {
        TextUnit::Incomplete
    }
}

pub open spec fn text_fault(kind: SyntaxErrorKind) -> TextUnit {
    TextUnit::Fault(Fault::Syntax(kind))
}

pub open spec fn is_high_surrogate(c: u32) -> bool {
    0xD800 <= c <= 0xDBFF
}

pub open spec fn is_low_surrogate(c: u32) -> bool {
    0xDC00 <= c <= 0xDFFF
}

/// The number of the character which a surrogate pair stands for.
pub open spec fn surrogate_pair(high: u32, low: u32) -> u32 {
    (0x10000 + (high - 0xD800) * 0x400 + (low - 0xDC00)) as u32
}

/// What an escape sequence is, given the input `s` behind its `\u`.
pub open spec fn unicode_escape_unit(s: Seq<u8>, eof: bool) -> TextUnit {
    let unpaired = SyntaxErrorKind::UnpairedSurrogatePairEscapeSequence;
    match hex_unit(s, eof) {
        HexUnit::Incomplete => TextUnit::Incomplete,
        HexUnit::Malformed => text_fault(SyntaxErrorKind::MalformedEscapeSequence),
        HexUnit::Value(c) => if is_low_surrogate(c) {
            text_fault(unpaired)
        } else if is_high_surrogate(c) {
            if s.len() > 4 && s[4] != 0x5C {
                text_fault(unpaired)
            } else if s.len() > 5 && s[5] != 0x75 {
                text_fault(unpaired)
            } else if s.len() < 6 {
                cut_text(eof, unpaired)
            } else {
                match hex_unit(s.skip(6), eof) {
                    HexUnit::Incomplete => TextUnit::Incomplete,
                    HexUnit::Malformed => text_fault(SyntaxErrorKind::MalformedEscapeSequence),
                    HexUnit::Value(c2) => if is_low_surrogate(c2) {
                        TextUnit::Escape { len: 12, c: surrogate_pair(c, c2) }
                    } else {
                        text_fault(unpaired)
                    },
                }
            }
        } else {
            TextUnit::Escape { len: 6, c }
        },
    }
}

/// The number of the character which the escape sequence `\` and `byte` stands for.
pub open spec fn simple_escape(byte: u8) -> Option<u32> {
    if byte == 0x22 || byte == 0x5C || byte == 0x2F {
        Some(byte as u32)
    } else if byte == 0x62 {
        Some(0x08)
    } else if byte == 0x66 {
        Some(0x0C)
    } else if byte == 0x6E {
        Some(0x0A)
    } else if byte == 0x72 {
        Some(0x0D)
    } else if byte == 0x74 {
        Some(0x09)
    } else {
        None
    }
}

/// What `s` starts with, inside a string or member name. `eof` tells that no input
/// follows `s`.
pub open spec fn text_unit(s: Seq<u8>, eof: bool) -> TextUnit {
    if s.len() == 0 {
        cut_text(eof, SyntaxErrorKind::IncompleteDocument)
    } else if s[0] == 0x5C {
        if s.len() == 1 {
            cut_text(eof, SyntaxErrorKind::MalformedEscapeSequence)
        } else if s[1] == 0x75 {
            unicode_escape_unit(s.skip(2), eof)
        } else {
            match simple_escape(s[1]) {
                Some(c) => TextUnit::Escape { len: 2, c },
                None => text_fault(SyntaxErrorKind::UnknownEscapeSequence),
            }
        }
    } else if s[0] == 0x22 {
        TextUnit::End
    } else if s[0] < 0x20 {
        text_fault(SyntaxErrorKind::NotEscapedControlCharacter)
    } else if s[0] < 0x80 {
        TextUnit::Raw(1)
    } else {
        match chars::multibyte_unit(s, eof) {
            CharUnit::Incomplete => TextUnit::Incomplete,
            CharUnit::Char(len) => TextUnit::Raw(len),
            CharUnit::Fault(fault) => TextUnit::Fault(fault),
        }
    }
}

/// Parses one digit of a `\uXXXX` escape sequence.
pub fn parse_unicode_escape_hex_digit(digit: u8) -> (r: Option<u32>)
    ensures
        r == hex_value(digit),
        r is Some ==> r->0 < 16,
{
    if 0x30 <= digit && digit <= 0x39 {
        Some((digit - 0x30) as u32)
    } else if 0x61 <= digit && digit <= 0x66 {
        Some((digit - 0x61 + 10) as u32)
    } else if 0x41 <= digit && digit <= 0x46 {
        Some((digit - 0x41 + 10) as u32)
    } else {
        None
    }
}

/// Reads the four digits of a `\uXXXX` escape sequence.
pub fn read_unicode_escape(s: &[u8], eof: bool) -> (r: HexUnit)
    ensures
        r == hex_unit(s@, eof),
        r is Value ==> r->Value_0 <= 0xFFFF,
{
    let mut value: u32 = 0;
    let mut i: usize = 0;
    while i < 4 && i < s.len()
        invariant
            i <= 4,
            i <= s@.len(),
            forall|j: int| 0 <= j < i ==> #[trigger] hex_value(s@[j]) is Some,
            i == 0 ==> value == 0,
            i == 1 ==> value == hex_value(s@[0])->0,
            i == 2 ==> value == hex_value(s@[0])->0 * 16 + hex_value(s@[1])->0,
            i == 3 ==> value == hex_value(s@[0])->0 * 256 + hex_value(s@[1])->0 * 16 + hex_value(
                s@[2],
            )->0,
            i == 4 ==> value == hex_value(s@[0])->0 * 4096 + hex_value(s@[1])->0 * 256 + hex_value(
                s@[2],
            )->0 * 16 + hex_value(s@[3])->0,
            i < 4 ==> value < 0x1000,
            value <= 0xFFFF,
        decreases 4 - i,
    {
        match parse_unicode_escape_hex_digit(s[i]) {
            Some(digit) => {
                value = value * 16 + digit;
            },
            None => {
                assert(hex_value(s@[i as int]) is None);
                return HexUnit::Malformed;
            },
        }
        i = i + 1;
    }
    if i == 4 {
        HexUnit::Value(value)
    } else if eof {
        HexUnit::Malformed
    } else {
        HexUnit::Incomplete
    }
}

/// Reads a `\uXXXX` escape sequence, or two of them for a surrogate pair. `s` is the input
/// behind the first `\u`.
pub fn read_unicode_escape_char(s: &[u8], eof: bool) -> (r: TextUnit)
    ensures
        r == unicode_escape_unit(s@, eof),
{
    let unpaired = TextUnit::Fault(
        Fault::Syntax(SyntaxErrorKind::UnpairedSurrogatePairEscapeSequence),
    );
    let malformed = TextUnit::Fault(Fault::Syntax(SyntaxErrorKind::MalformedEscapeSequence));
    match read_unicode_escape(s, eof) {
        HexUnit::Incomplete => TextUnit::Incomplete,
        HexUnit::Malformed => malformed,
        HexUnit::Value(c) => {
            // Unpaired low surrogate
            if 0xDC00 <= c && c <= 0xDFFF {
                return unpaired;
            }
            // If char is high surrogate, expect Unicode-escaped low surrogate

            if 0xD800 <= c && c <= 0xDBFF {
                if s.len() > 4 && s[4] != 0x5C {
                    return unpaired;
                }
                if s.len() > 5 && s[5] != 0x75 {
                    return unpaired;
                }
                if s.len() < 6 {
                    return if eof {
                        unpaired
                    } else {
                        TextUnit::Incomplete
                    };
                }
                let tail = slice_subrange(s, 6, s.len());
                assert(tail@ =~= s@.skip(6));
                return match read_unicode_escape(tail, eof) {
                    HexUnit::Incomplete => TextUnit::Incomplete,
                    HexUnit::Malformed => malformed,
                    HexUnit::Value(c2) => {
                        if 0xDC00 <= c2 && c2 <= 0xDFFF {
                            TextUnit::Escape {
                                len: 12,
                                c: 0x10000 + (c - 0xD800) * 0x400 + (c2 - 0xDC00),
                            }
                        } else {
                            unpaired
                        }
                    },
                };
            }
            TextUnit::Escape { len: 6, c }
        },
    }
}

/// Reads one character or escape sequence of a string or member name, or its end.
pub fn read_string_unit(s: &[u8], eof: bool) -> (r: TextUnit)
    ensures
        r == text_unit(s@, eof),
{
    if s.len() == 0 {
        return if eof {
            TextUnit::Fault(Fault::Syntax(SyntaxErrorKind::IncompleteDocument))
        } else {
            TextUnit::Incomplete
        };
    }
    let byte: u8 = s[0];
    if byte == 0x5C {
        // Read escape sequence
        if s.len() == 1 {
            return if eof {
                TextUnit::Fault(Fault::Syntax(SyntaxErrorKind::MalformedEscapeSequence))
            } else {
                TextUnit::Incomplete
            };
        }
        let escaped: u8 = s[1];
        if escaped == 0x22 || escaped == 0x5C || escaped == 0x2F {
            TextUnit::Escape { len: 2, c: escaped as u32 }
        } else if escaped == 0x62 {
            TextUnit::Escape { len: 2, c: 0x08 }
        } else if escaped == 0x66 {
            TextUnit::Escape { len: 2, c: 0x0C }
        } else if escaped == 0x6E {
            TextUnit::Escape { len: 2, c: 0x0A }
        } else if escaped == 0x72 {
            TextUnit::Escape { len: 2, c: 0x0D }
        } else if escaped == 0x74 {
            TextUnit::Escape { len: 2, c: 0x09 }
        } else if escaped == 0x75 {
            let tail = slice_subrange(s, 2, s.len());
            assert(tail@ =~= s@.skip(2));
            read_unicode_escape_char(tail, eof)
        } else {
            TextUnit::Fault(Fault::Syntax(SyntaxErrorKind::UnknownEscapeSequence))
        }
    } else if byte == 0x22 {
        TextUnit::End
    } else if byte < 0x20 {
        // Control characters must be written as Unicode escape
        TextUnit::Fault(Fault::Syntax(SyntaxErrorKind::NotEscapedControlCharacter))
    } else if byte < 0x80 {
        TextUnit::Raw(1)
    } else {
        // Read and validate multibyte UTF-8 data
        match read_utf8_multibyte(s, eof) {
            CharUnit::Incomplete => TextUnit::Incomplete,
            CharUnit::Char(len) => TextUnit::Raw(len),
            CharUnit::Fault(fault) => TextUnit::Fault(fault),
        }
    }
}

/// The number of bytes of malformed content up to and including the one which makes it
/// malformed, where the first `start` bytes do not.
pub open spec fn malformed_len(s: Seq<u8>, start: int) -> int
    decreases s.len() - start,
{
    if start < s.len() && !(text_unit(s.take(start), false) is Fault) {
        malformed_len(s, start + 1)
    } else {
        start
    }
}

/// Counts the bytes of malformed content.
pub fn count_malformed(s: &[u8]) -> (r: usize)
    ensures
        r == malformed_len(s@, 0),
        r <= s@.len(),
{
    let mut i: usize = 0;
    while i < s.len()
        invariant
            i <= s@.len(),
            malformed_len(s@, 0) == malformed_len(s@, i as int),
        decreases s@.len() - i,
    {
        let head = slice_subrange(s, 0, i);
        assert(head@ =~= s@.take(i as int));
        if let TextUnit::Fault(_) = read_string_unit(head, false) {
            return i;
        }
        i = i + 1;
    }
    i
}

/// How much of the content is malformed does not depend on the input behind it.
pub proof fn lemma_malformed_stable(s: Seq<u8>, more: Seq<u8>, start: int)
    requires
        0 <= start <= s.len(),
    ensures
        start <= malformed_len(s, start) <= s.len(),
        text_unit(s, false) is Fault ==> malformed_len(s + more, start) == malformed_len(s, start),
    decreases s.len() - start,
{
    assert((s + more).take(start) =~= s.take(start));
    if start < s.len() {
        lemma_malformed_stable(s, more, start + 1);
    } else {
        assert(s.take(start) =~= s);
    }
}

/// The bytes which a text unit at the start of `s` contributes to the content.
pub open spec fn unit_bytes(unit: TextUnit, s: Seq<u8>) -> Seq<u8> {
    match unit {
        TextUnit::Raw(len) => s.take(len as int),
        TextUnit::Escape { len: _, c } => encode_scalar(c),
        _ => Seq::empty(),
    }
}

/// The number of bytes of input which a text unit takes up.
pub open spec fn unit_len(unit: TextUnit) -> int {
    match unit {
        TextUnit::Raw(len) => len as int,
        TextUnit::Escape { len, c: _ } => len as int,
        TextUnit::End => 1,
        _ => 0,
    }
}

/// The number of columns which a text unit takes up.
pub open spec fn unit_columns(unit: TextUnit) -> int {
    match unit {
        TextUnit::Raw(_) => 1,
        TextUnit::Escape { len, c: _ } => len as int,
        TextUnit::End => 1,
        _ => 0,
    }
}

/// A hexadecimal unit which is decided does not depend on the input behind it.
pub proof fn lemma_hex_stable(s: Seq<u8>, more: Seq<u8>, eof: bool)
    requires
        !(hex_unit(s, false) is Incomplete),
    ensures
        hex_unit(s + more, eof) == hex_unit(s, false),
{
    let t = s + more;
    assert forall|i: int| 0 <= i < s.len() implies t[i] == s[i] by {}
    if exists|i: int| 0 <= i < 4 && i < s.len() && #[trigger] hex_value(s[i]) is None {
        let i = choose|i: int| 0 <= i < 4 && i < s.len() && #[trigger] hex_value(s[i]) is None;
        assert(hex_value(t[i]) is None);
    } else {
        assert(s.len() >= 4);
        assert forall|i: int| 0 <= i < 4 implies !(#[trigger] hex_value(t[i]) is None) by {
            assert(hex_value(s[i]) is Some);
        }
        assert(hex_number(t) == hex_number(s));
    }
}

/// A text unit which is decided does not depend on the input behind it.
pub proof fn lemma_text_stable(s: Seq<u8>, more: Seq<u8>, eof: bool)
    requires
        !(text_unit(s, false) is Incomplete),
    ensures
        text_unit(s + more, eof) == text_unit(s, false),
{
    let t = s + more;
    assert(t[0] == s[0]);
    if s[0] == 0x5C {
        assert(t[1] == s[1]);
        if s[1] == 0x75 {
            let a = s.skip(2);
            assert(t.skip(2) =~= a + more);
            let b = a + more;
            lemma_hex_stable(a, more, eof);
            if let HexUnit::Value(c) = hex_unit(a, false) {
                if is_high_surrogate(c) {
                    assert(a.len() >= 4);
                    assert(a.len() > 4 ==> b[4] == a[4]);
                    assert(a.len() > 5 ==> b[5] == a[5]);
                    if a.len() >= 6 && a[4] == 0x5C && a[5] == 0x75 {
                        assert(b.skip(6) =~= a.skip(6) + more);
                        lemma_hex_stable(a.skip(6), more, eof);
                    }
                }
            }
        }
    } else if s[0] >= 0x80 {
        chars::lemma_multibyte_stable(s, more, eof);
    }
}

/// What every decided text unit is known for.
pub proof fn lemma_text_unit(s: Seq<u8>, eof: bool)
    ensures
        text_unit(s, eof) is Incomplete ==> !eof && s.len() < LONGEST_UNIT,
        unit_len(text_unit(s, eof)) <= s.len(),
        text_unit(s, eof) is End ==> s.len() > 0,
        text_unit(s, eof) is Raw ==> 1 <= unit_len(text_unit(s, eof)) <= 4 && valid_utf8(
            s.take(unit_len(text_unit(s, eof))),
        ),
        text_unit(s, eof) is Escape ==> 2 <= unit_len(text_unit(s, eof)) <= LONGEST_UNIT && is_scalar(
            text_unit(s, eof)->c,
        ),
        valid_utf8(unit_bytes(text_unit(s, eof), s)),
        text_unit(s, eof) is Raw || text_unit(s, eof) is Escape ==> 1 <= unit_bytes(
            text_unit(s, eof),
            s,
        ).len() <= 4,
{
    if s.len() > 0 {
        if s[0] >= 0x80 {
            if chars::multibyte_unit(s, eof) is Char {
                chars::lemma_first_scalar_valid(s);
            }
        } else if s[0] >= 0x20 && s[0] != 0x22 && s[0] != 0x5C {
            let b = s[0];
            assert((b & 0x7F) < 0x80) by (bit_vector);
            assert(valid_first_scalar(s));
            chars::lemma_first_scalar_valid(s);
        } else if s[0] == 0x5C && s.len() > 1 {
            if s[1] == 0x75 {
                let a = s.skip(2);
                if let HexUnit::Value(c) = hex_unit(a, eof) {
                    lemma_hex_range(a, eof);
                    if is_high_surrogate(c) && a.len() >= 6 {
                        lemma_hex_range(a.skip(6), eof);
                    }
                }
            }
            if let TextUnit::Escape { len, c } = text_unit(s, eof) {
                chars::lemma_encode_scalar(c);
            }
        }
    }
}

/// The number of four hexadecimal digits fits into 16 bits.
proof fn lemma_hex_range(s: Seq<u8>, eof: bool)
    ensures
        hex_unit(s, eof) matches HexUnit::Value(c) ==> c <= 0xFFFF && s.len() >= 4,
        hex_unit(s, eof) is Incomplete ==> s.len() < 4 && !eof,
{
    if hex_unit(s, eof) is Value {
        assert(hex_value(s[0]) is Some && hex_value(s[1]) is Some && hex_value(s[2]) is Some
            && hex_value(s[3]) is Some);
    }
}

} // verus!
