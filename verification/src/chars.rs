//! Recognizing and producing single UTF-8 characters.

use vstd::prelude::*;
use vstd::utf8::*;

use crate::types::{Fault, SyntaxErrorKind};

verus! {

/// Maximum number of bytes of the UTF-8 encoding of a character.
pub const MAX_BYTES_PER_CHAR: usize = 4;

/// What the input starts with, where a character is expected.
#[derive(Clone, Copy, Debug)]
pub enum CharUnit {
    /// The input ends inside the character, and more of it may follow.
    Incomplete,
    /// A complete character of the given number of bytes.
    Char(usize),
    /// No character.
    Fault(Fault),
}

/// The character unit for input which ends too early.
pub open spec fn cut_off(eof: bool) -> CharUnit {
    if eof {
        CharUnit::Fault(Fault::Syntax(SyntaxErrorKind::IncompleteDocument))
    } else {
        CharUnit::Incomplete
    }
}

/// What `s` starts with, where its first byte is no ASCII character. `eof` tells that no
/// input follows `s`.
///
/// Bytes are judged one after the other: an invalid byte is only found out once all the
/// bytes in front of it are there.
pub open spec fn multibyte_unit(s: Seq<u8>, eof: bool) -> CharUnit {
    let invalid = CharUnit::Fault(Fault::InvalidUtf8);
    if s.len() < 2 {
        cut_off(eof)
    } else if !is_continuation_byte(s[1]) {
        invalid
    } else if is_leading_byte_width_2(s[0]) {
        if valid_first_scalar(s) {
            CharUnit::Char(2)
        } else {
            invalid
        }
    } else if s.len() < 3 {
        cut_off(eof)
    } else if !is_continuation_byte(s[2]) {
        invalid
    } else if is_leading_byte_width_3(s[0]) {
        if valid_first_scalar(s) {
            CharUnit::Char(3)
        } else {
            invalid
        }
    } else if is_leading_byte_width_4(s[0]) {
        if s.len() < 4 {
            cut_off(eof)
        } else if valid_first_scalar(s) {
            CharUnit::Char(4)
        } else {
            invalid
        }
    } else {
        invalid
    }
}

/// Whether the byte continues a character of several bytes.
pub fn is_continuation(byte: u8) -> (r: bool)
    ensures
        r == is_continuation_byte(byte),
{
    0x80 <= byte && byte <= 0xBF
}

/// Whether the byte starts a character of two bytes.
pub fn is_2byte_start(byte: u8) -> (r: bool)
    ensures
        r == is_leading_byte_width_2(byte),
{
    0xC0 <= byte && byte <= 0xDF
}

/// Whether the byte starts a character of three bytes.
pub fn is_3byte_start(byte: u8) -> (r: bool)
    ensures
        r == is_leading_byte_width_3(byte),
{
    0xE0 <= byte && byte <= 0xEF
}

/// Whether the byte starts a character of four bytes.
pub fn is_4byte_start(byte: u8) -> (r: bool)
    ensures
        r == is_leading_byte_width_4(byte),
{
    0xF0 <= byte && byte <= 0xF7
}

/// Whether a start byte and a continuation byte are the shortest encoding of a character.
pub fn is_valid_2bytes(b0: u8, b1: u8) -> (r: bool)
    requires
        is_leading_byte_width_2(b0),
        is_continuation_byte(b1),
    ensures
        r == not_overlong_encoding(codepoint_width_2(b0, b1), 2),
{
    proof {
        assert(0xC0 <= b0 <= 0xDF && 0x80 <= b1 <= 0xBF ==> (b0 >= 0xC2 <==> 0x80 <= ((((b0 & 0x1F)
            as u32) << 6) | ((b1 & 0x3f) as u32)))) by (bit_vector);
    }
    b0 >= 0xC2
}

/// Whether a start byte and two continuation bytes are the shortest encoding of a
/// character, and of no surrogate.
pub fn is_valid_3bytes(b0: u8, b1: u8, b2: u8) -> (r: bool)
    requires
        is_leading_byte_width_3(b0),
        is_continuation_byte(b1),
        is_continuation_byte(b2),
    ensures
        r == (not_overlong_encoding(codepoint_width_3(b0, b1, b2), 3) && not_surrogate(
            codepoint_width_3(b0, b1, b2),
        )),
{
    proof {
        assert(0xE0 <= b0 <= 0xEF && 0x80 <= b1 <= 0xBF && 0x80 <= b2 <= 0xBF ==> ({
            let c = (((b0 & 0x0F) as u32) << 12) | (((b1 & 0x3f) as u32) << 6) | ((b2 & 0x3f)
                as u32);
            ((b0 != 0xE0 || b1 >= 0xA0) && (b0 != 0xED || b1 < 0xA0)) <==> (0x800 <= c && !(0xD800
                <= c && c <= 0xDFFF))
        })) by (bit_vector);
    }
    (b0 != 0xE0 || b1 >= 0xA0) && (b0 != 0xED || b1 < 0xA0)
}

/// Whether a start byte and three continuation bytes are the shortest encoding of a
/// character.
pub fn is_valid_4bytes(b0: u8, b1: u8, b2: u8, b3: u8) -> (r: bool)
    requires
        is_leading_byte_width_4(b0),
        is_continuation_byte(b1),
        is_continuation_byte(b2),
        is_continuation_byte(b3),
    ensures
        r == (not_overlong_encoding(codepoint_width_4(b0, b1, b2, b3), 4) && not_surrogate(
            codepoint_width_4(b0, b1, b2, b3),
        )),
{
    proof {
        assert(0xF0 <= b0 <= 0xF7 && 0x80 <= b1 <= 0xBF && 0x80 <= b2 <= 0xBF && 0x80 <= b3 <= 0xBF
            ==> ({
            let c = (((b0 & 0x07) as u32) << 18) | (((b1 & 0x3f) as u32) << 12) | (((b2 & 0x3f)
                as u32) << 6) | ((b3 & 0x3f) as u32);
            ((b0 != 0xF0 || b1 >= 0x90) && (b0 < 0xF4 || (b0 == 0xF4 && b1 < 0x90))) <==> (0x10000
                <= c && c <= 0x10ffff && !(0xD800 <= c && c <= 0xDFFF))
        })) by (bit_vector);
    }
    (b0 != 0xF0 || b1 >= 0x90) && (b0 < 0xF4 || (b0 == 0xF4 && b1 < 0x90))
}

/// Reads a UTF-8 character of several bytes.
pub fn read_utf8_multibyte(s: &[u8], eof: bool) -> (r: CharUnit)
    requires
        s@.len() > 0,
        s@[0] >= 0x80,
    ensures
        r == multibyte_unit(s@, eof),
{
    let incomplete = if eof {
        CharUnit::Fault(Fault::Syntax(SyntaxErrorKind::IncompleteDocument))
    } else {
        CharUnit::Incomplete
    };
    let invalid = CharUnit::Fault(Fault::InvalidUtf8);
    let byte0: u8 = s[0];
    if s.len() < 2 {
        return incomplete;
    }
    let byte1: u8 = s[1];
    if !is_continuation(byte1) {
        return invalid;
    }
    if is_2byte_start(byte0) {
        if !is_valid_2bytes(byte0, byte1) {
            return invalid;
        }
        proof {
            assert(((((byte0 & 0x1F) as u32) << 6) | ((byte1 & 0x3f) as u32)) <= 0x7FF)
                by (bit_vector);
        }
        return CharUnit::Char(2);
    }
    if s.len() < 3 {
        return incomplete;
    }
    let byte2: u8 = s[2];
    if !is_continuation(byte2) {
        return invalid;
    }
    if is_3byte_start(byte0) {
        if !is_valid_3bytes(byte0, byte1, byte2) {
            return invalid;
        }
        return CharUnit::Char(3);
    }
    if is_4byte_start(byte0) {
        if s.len() < 4 {
            return incomplete;
        }
        let byte3: u8 = s[3];
        if !is_continuation(byte3) {
            return invalid;
        }
        if !is_valid_4bytes(byte0, byte1, byte2, byte3) {
            return invalid;
        }
        return CharUnit::Char(4);
    }
    invalid
}

/// The bytes of the UTF-8 encoding of a character.
pub fn encode_char(c: u32) -> (r: Vec<u8>)
    requires
        is_scalar(c),
    ensures
        r@ == encode_scalar(c),
{
    let mut r: Vec<u8> = Vec::with_capacity(MAX_BYTES_PER_CHAR);
    if c <= 0x7F {
        r.push((c & 0x7F) as u8);
    } else if c <= 0x7FF {
        r.push(0xC0 | ((c >> 6) & 0x1F) as u8);
        r.push(0x80 | (c & 0x3F) as u8);
    } else if c <= 0xFFFF {
        r.push(0xE0 | ((c >> 12) & 0x0F) as u8);
        r.push(0x80 | ((c >> 6) & 0x3F) as u8);
        r.push(0x80 | (c & 0x3F) as u8);
    } else {
        r.push(0xF0 | ((c >> 18) & 0x7) as u8);
        r.push(0x80 | ((c >> 12) & 0x3F) as u8);
        r.push(0x80 | ((c >> 6) & 0x3F) as u8);
        r.push(0x80 | (c & 0x3F) as u8);
    }
    proof {
        assert(r@ =~= encode_scalar(c));
    }
    r
}

/// The UTF-8 encoding of a character.
#[derive(Clone, Copy, Debug)]
pub struct EncodedChar {
    pub bytes: [u8; 4],
    pub len: usize,
}

impl View for EncodedChar {
    type V = Seq<u8>;

    open spec fn view(&self) -> Seq<u8> {
        self.bytes@.take(self.len as int)
    }
}

impl EncodedChar {
    pub open spec fn wf(&self) -> bool {
        1 <= self.len <= MAX_BYTES_PER_CHAR
    }

    /// Copies the bytes of a character.
    pub fn copy(s: &[u8]) -> (r: Self)
        requires
            1 <= s@.len() <= MAX_BYTES_PER_CHAR,
        ensures
            r.wf(),
            r@ == s@,
    {
        let mut bytes: [u8; 4] = [0, 0, 0, 0];
        let mut i: usize = 0;
        while i < s.len()
            invariant
                i <= s@.len() <= 4,
                forall|j: int| 0 <= j < i ==> #[trigger] bytes@[j] == s@[j],
            decreases s@.len() - i,
        {
            bytes[i] = s[i];
            i = i + 1;
        }
        let r = EncodedChar { bytes, len: s.len() };
        assert(r@ =~= s@);
        r
    }
}

/// The character with the given number.
pub open spec fn char_of(c: u32) -> char {
    c as char
}

/// The encoding of a single character is valid UTF-8 and decodes to that character.
pub proof fn lemma_encode_scalar(c: u32)
    requires
        is_scalar(c),
    ensures
        valid_utf8(encode_scalar(c)),
        decode_utf8(encode_scalar(c)) == seq![char_of(c)],
        1 <= encode_scalar(c).len() <= 4,
{
    let chars = seq![char_of(c)];
    assert(chars.drop_first() =~= Seq::<char>::empty());
    assert(encode_utf8(chars.drop_first()) =~= Seq::<u8>::empty());
    assert(encode_utf8(chars) =~= encode_scalar(c)) by {
        assert(chars[0] as u32 == c);
        assert(encode_utf8(chars) == encode_scalar(c) + encode_utf8(chars.drop_first()));
    }
    encode_utf8_valid_utf8(chars);
    encode_utf8_decode_utf8(chars);
}

/// Text consisting of two valid parts is valid, and decodes to what the parts decode to.
pub proof fn lemma_decode_concat(a: Seq<u8>, b: Seq<u8>)
    requires
        valid_utf8(a),
        valid_utf8(b),
    ensures
        valid_utf8(a + b),
        decode_utf8(a + b) == decode_utf8(a) + decode_utf8(b),
    decreases a.len(),
{
    valid_utf8_concat(a, b);
    if a.len() == 0 {
        assert(a + b =~= b);
        assert(decode_utf8(a) =~= Seq::<char>::empty());
        assert(decode_utf8(a) + decode_utf8(b) =~= decode_utf8(b));
    } else {
        let rest = pop_first_scalar(a);
        assert(pop_first_scalar(a + b) =~= rest + b);
        lemma_decode_concat(rest, b);
        assert(decode_utf8(a + b) =~= decode_utf8(a) + decode_utf8(b));
    }
}

/// A complete character is valid UTF-8.
pub proof fn lemma_first_scalar_valid(s: Seq<u8>)
    requires
        valid_first_scalar(s),
    ensures
        1 <= length_of_first_scalar(s) <= s.len(),
        valid_utf8(s.take(length_of_first_scalar(s))),
        decode_utf8(s.take(length_of_first_scalar(s))) == seq![decode_first_scalar(s) as char],
{
    let head = s.take(length_of_first_scalar(s));
    assert(valid_first_scalar(head));
    assert(pop_first_scalar(head) =~= Seq::<u8>::empty());
    assert(valid_utf8(pop_first_scalar(head)));
    assert(decode_utf8(pop_first_scalar(head)) =~= Seq::<char>::empty());
    assert(decode_utf8(head) =~= seq![decode_first_scalar(s) as char]);
}

/// ASCII text is valid UTF-8, and each of its bytes stands for the character of that number.
pub proof fn lemma_ascii_valid(s: Seq<u8>)
    requires
        forall|i: int| 0 <= i < s.len() ==> #[trigger] s[i] <= 0x7F,
    ensures
        valid_utf8(s),
        decode_utf8(s) == s.map_values(|b: u8| b as char),
    decreases s.len(),
{
    if s.len() == 0 {
        assert(decode_utf8(s) =~= s.map_values(|b: u8| b as char));
    } else {
        let b = s[0];
        assert((b & 0x7F) == b) by (bit_vector)
            requires
                b <= 0x7F,
        ;
        assert(valid_first_scalar(s));
        let rest = pop_first_scalar(s);
        assert(rest =~= s.skip(1));
        lemma_ascii_valid(rest);
        assert(decode_utf8(s) =~= s.map_values(|b: u8| b as char));
    }
}

/// A decided character unit does not depend on the input behind it.
pub proof fn lemma_multibyte_stable(s: Seq<u8>, more: Seq<u8>, eof: bool)
    requires
        !(multibyte_unit(s, false) is Incomplete),
    ensures
        multibyte_unit(s + more, eof) == multibyte_unit(s, false),
{
    let t = s + more;
    assert(s.len() > 0 ==> t[0] == s[0]);
    assert(s.len() > 1 ==> t[1] == s[1]);
    assert(s.len() > 2 ==> t[2] == s[2]);
    assert(s.len() > 3 ==> t[3] == s[3]);
}

} // verus!
