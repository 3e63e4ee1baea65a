//! Recognizing the token which a value, a member name or the end of a container starts with.

use vstd::prelude::*;
use vstd::slice::slice_subrange;

use crate::text;
use crate::types::{PeekedValue, SyntaxErrorKind};

verus! {

/// What the input starts with, where a token is expected.
#[derive(Clone, Copy, Debug)]
pub enum TokenUnit {
    /// More input is needed.
    Incomplete,
    /// A token; its first `len` bytes are taken from the input together with it.
    Token { value: PeekedValue, len: usize },
    /// No token which may stand here.
    Fault(SyntaxErrorKind),
}

/// Whether a value may be directly followed by `byte`.
///
/// This includes `:` even though it is no value separator, to get more accurate errors.
pub open spec fn is_value_separator(byte: u8) -> bool {
    ||| byte == 0x2C
    ||| byte == 0x5D
    ||| byte == 0x7D
    ||| byte == 0x20
    ||| byte == 0x09
    ||| byte == 0x0A
    ||| byte == 0x0D
    ||| byte == 0x2F
    ||| byte == 0x3A
}

/// The bytes of `null`.
pub open spec fn null_bytes() -> Seq<u8> {
    seq![0x6E, 0x75, 0x6C, 0x6C]
}

/// The bytes of `true`.
pub open spec fn true_bytes() -> Seq<u8> {
    seq![0x74, 0x72, 0x75, 0x65]
}

/// The bytes of `false`.
pub open spec fn false_bytes() -> Seq<u8> {
    seq![0x66, 0x61, 0x6C, 0x73, 0x65]
}

/// Whether `s` and `literal` differ somewhere within the length of both.
pub open spec fn differs(s: Seq<u8>, literal: Seq<u8>) -> bool {
    exists|i: int| 0 <= i < s.len() && i < literal.len() && #[trigger] s[i] != literal[i]
}

/// What `s` starts with, where the given literal is expected.
pub open spec fn literal_unit(
    s: Seq<u8>,
    eof: bool,
    literal: Seq<u8>,
    value: PeekedValue,
) -> TokenUnit {
    if differs(s, literal) {
        TokenUnit::Fault(SyntaxErrorKind::InvalidLiteral)
    } else if s.len() > literal.len() {
        // Make sure there are no misleading chars directly afterwards, e.g. "truey"
        if is_value_separator(s[literal.len() as int]) {
            TokenUnit::Token { value, len: literal.len() as usize }
        } else {
            TokenUnit::Fault(SyntaxErrorKind::TrailingDataAfterLiteral)
        }
    } else if !eof {
        TokenUnit::Incomplete
    } else if s.len() == literal.len() {
        TokenUnit::Token { value, len: literal.len() as usize }
    } else {
        TokenUnit::Fault(SyntaxErrorKind::InvalidLiteral)
    }
}

/// What `s` starts with, where a member name or the end of the object is expected.
pub open spec fn member_unit(s: Seq<u8>) -> TokenUnit {
    if s[0] == 0x7D {
        TokenUnit::Token { value: PeekedValue::ObjectEnd, len: 1 }
    } else if s[0] == 0x22 {
        TokenUnit::Token { value: PeekedValue::NameStart, len: 1 }
    } else {
        TokenUnit::Fault(SyntaxErrorKind::ExpectingMemberNameOrObjectEnd)
    }
}

/// What `s` starts with, where a value, or inside an array its end, is expected.
pub open spec fn value_unit(in_array: bool, s: Seq<u8>, eof: bool) -> TokenUnit {
    let byte = s[0];
    if byte == 0x5B {
        TokenUnit::Token { value: PeekedValue::ArrayStart, len: 1 }
    } else if byte == 0x5D {
        if in_array {
            TokenUnit::Token { value: PeekedValue::ArrayEnd, len: 1 }
        } else {
            TokenUnit::Fault(SyntaxErrorKind::UnexpectedClosingBracket)
        }
    } else if byte == 0x7B {
        TokenUnit::Token { value: PeekedValue::ObjectStart, len: 1 }
    } else if byte == 0x7D {
        TokenUnit::Fault(SyntaxErrorKind::UnexpectedClosingBracket)
    } else if byte == 0x22 {
        TokenUnit::Token { value: PeekedValue::StringStart, len: 1 }
    } else if byte == 0x2D || 0x30 <= byte <= 0x39 {
        TokenUnit::Token { value: PeekedValue::NumberStart, len: 0 }
    } else if byte == 0x6E {
        literal_unit(s, eof, null_bytes(), PeekedValue::Null)
    } else if byte == 0x74 {
        literal_unit(s, eof, true_bytes(), PeekedValue::BooleanTrue)
    } else if byte == 0x66 {
        literal_unit(s, eof, false_bytes(), PeekedValue::BooleanFalse)
    } else if byte == 0x2C {
        TokenUnit::Fault(SyntaxErrorKind::UnexpectedComma)
    } else if byte == 0x3A {
        TokenUnit::Fault(SyntaxErrorKind::UnexpectedColon)
    } else {
        TokenUnit::Fault(SyntaxErrorKind::MalformedJson)
    }
}

/// What `s` starts with, where a token is expected.
pub open spec fn token_unit(
    expects_member_name: bool,
    in_array: bool,
    s: Seq<u8>,
    eof: bool,
) -> TokenUnit {
    if expects_member_name {
        member_unit(s)
    } else {
        value_unit(in_array, s, eof)
    }
}

/// The number of bytes which have been taken from the input for a token which has been
/// recognized but not consumed yet.
pub open spec fn token_len(value: PeekedValue) -> int {
    match value {
        PeekedValue::ObjectStart => 1,
        PeekedValue::ObjectEnd => 1,
        PeekedValue::ArrayStart => 1,
        PeekedValue::ArrayEnd => 1,
        PeekedValue::StringStart => 1,
        PeekedValue::NameStart => 1,
        PeekedValue::NumberStart => 0,
        PeekedValue::Null => 4,
        PeekedValue::BooleanTrue => 4,
        PeekedValue::BooleanFalse => 5,
    }
}

/// Whether a value may be directly followed by the byte.
pub fn verify_value_separator(byte: u8) -> (r: bool)
    ensures
        r == is_value_separator(byte),
{
    byte == 0x2C || byte == 0x5D || byte == 0x7D || byte == 0x20 || byte == 0x09 || byte == 0x0A
        || byte == 0x0D || byte == 0x2F || byte == 0x3A
}

/// Recognizes a literal, and makes sure that no other data directly follows it.
pub fn consume_literal(s: &[u8], eof: bool, literal: &[u8], value: PeekedValue) -> (r: TokenUnit)
    ensures
        r == literal_unit(s@, eof, literal@, value),
{
    let mut i: usize = 0;
    while i < literal.len() && i < s.len()
        invariant
            i <= literal@.len(),
            i <= s@.len(),
            forall|j: int| 0 <= j < i ==> #[trigger] s@[j] == literal@[j],
        decreases literal@.len() - i,
    {
        if s[i] != literal[i] {
            assert(differs(s@, literal@));
            return TokenUnit::Fault(SyntaxErrorKind::InvalidLiteral);
        }
        i = i + 1;
    }
    assert(!differs(s@, literal@));
    if s.len() > literal.len() {
        if verify_value_separator(s[literal.len()]) {
            TokenUnit::Token { value, len: literal.len() }
        } else {
            TokenUnit::Fault(SyntaxErrorKind::TrailingDataAfterLiteral)
        }
    } else if !eof {
        TokenUnit::Incomplete
    } else if s.len() == literal.len() {
        TokenUnit::Token { value, len: literal.len() }
    } else {
        TokenUnit::Fault(SyntaxErrorKind::InvalidLiteral)
    }
}

/// Recognizes a token.
pub fn read_token_unit(expects_member_name: bool, in_array: bool, s: &[u8], eof: bool) -> (r:
    TokenUnit)
    requires
        s@.len() > 0,
    ensures
        r == token_unit(expects_member_name, in_array, s@, eof),
{
    let byte: u8 = s[0];
    if expects_member_name {
        return if byte == 0x7D {
            TokenUnit::Token { value: PeekedValue::ObjectEnd, len: 1 }
        } else if byte == 0x22 {
            TokenUnit::Token { value: PeekedValue::NameStart, len: 1 }
        } else {
            TokenUnit::Fault(SyntaxErrorKind::ExpectingMemberNameOrObjectEnd)
        };
    }
    if byte == 0x5B {
        TokenUnit::Token { value: PeekedValue::ArrayStart, len: 1 }
    } else if byte == 0x5D {
        if in_array {
            TokenUnit::Token { value: PeekedValue::ArrayEnd, len: 1 }
        } else {
            TokenUnit::Fault(SyntaxErrorKind::UnexpectedClosingBracket)
        }
    } else if byte == 0x7B {
        TokenUnit::Token { value: PeekedValue::ObjectStart, len: 1 }
    } else if byte == 0x7D {
        TokenUnit::Fault(SyntaxErrorKind::UnexpectedClosingBracket)
    } else if byte == 0x22 {
        TokenUnit::Token { value: PeekedValue::StringStart, len: 1 }
    } else if byte == 0x2D || (0x30 <= byte && byte <= 0x39) {
        // Don't take the first number char yet, it is part of the number value
        TokenUnit::Token { value: PeekedValue::NumberStart, len: 0 }
    } else if byte == 0x6E {
        let literal: [u8; 4] = [0x6E, 0x75, 0x6C, 0x6C];
        assert(literal@ =~= null_bytes());
        consume_literal(s, eof, &literal, PeekedValue::Null)
    } else if byte == 0x74 {
        let literal: [u8; 4] = [0x74, 0x72, 0x75, 0x65];
        assert(literal@ =~= true_bytes());
        consume_literal(s, eof, &literal, PeekedValue::BooleanTrue)
    } else if byte == 0x66 {
        let literal: [u8; 5] = [0x66, 0x61, 0x6C, 0x73, 0x65];
        assert(literal@ =~= false_bytes());
        consume_literal(s, eof, &literal, PeekedValue::BooleanFalse)
    } else if byte == 0x2C {
        TokenUnit::Fault(SyntaxErrorKind::UnexpectedComma)
    } else if byte == 0x3A {
        TokenUnit::Fault(SyntaxErrorKind::UnexpectedColon)
    } else {
        TokenUnit::Fault(SyntaxErrorKind::MalformedJson)
    }
}

/// The number of bytes of malformed input up to and including the one which makes it malformed,
/// where the first `start` bytes do not.
pub open spec fn malformed_len(
    expects_member_name: bool,
    in_array: bool,
    s: Seq<u8>,
    start: int,
) -> int
    decreases s.len() - start,
{
    if start < s.len() && !(token_unit(expects_member_name, in_array, s.take(start), false)
        is Fault) {
        malformed_len(expects_member_name, in_array, s, start + 1)
    } else {
        start
    }
}

/// The number of bytes which are consumed when malformed input is found. Only literals are
/// consumed, but not the data behind them.
pub open spec fn fault_len(
    expects_member_name: bool,
    in_array: bool,
    s: Seq<u8>,
    kind: SyntaxErrorKind,
) -> int {
    if kind == SyntaxErrorKind::InvalidLiteral {
        malformed_len(expects_member_name, in_array, s, 1)
    } else if kind == SyntaxErrorKind::TrailingDataAfterLiteral {
        malformed_len(expects_member_name, in_array, s, 1) - 1
    } else {
        0
    }
}

/// The number of bytes of a literal; 0 for other tokens.
pub open spec fn literal_len(value: PeekedValue) -> int {
    match value {
        PeekedValue::Null => 4,
        PeekedValue::BooleanTrue => 4,
        PeekedValue::BooleanFalse => 5,
        _ => 0,
    }
}

/// Counts the bytes which are consumed when malformed input is found.
pub fn count_fault(
    expects_member_name: bool,
    in_array: bool,
    s: &[u8],
    kind: SyntaxErrorKind,
) -> (r: usize)
    requires
        s@.len() > 0,
    ensures
        r == fault_len(expects_member_name, in_array, s@, kind),
        r <= s@.len(),
{
    if kind != SyntaxErrorKind::InvalidLiteral && kind
        != SyntaxErrorKind::TrailingDataAfterLiteral {
        return 0;
    }
    let mut i: usize = 1;
    while i < s.len()
        invariant_except_break
            1 <= i <= s@.len(),
            malformed_len(expects_member_name, in_array, s@, 1) == malformed_len(
                expects_member_name,
                in_array,
                s@,
                i as int,
            ),
        ensures
            1 <= i <= s@.len(),
            i == malformed_len(expects_member_name, in_array, s@, 1),
        decreases s@.len() - i,
    {
        let head = slice_subrange(s, 0, i);
        assert(head@ =~= s@.take(i as int));
        if let TokenUnit::Fault(_) = read_token_unit(expects_member_name, in_array, head, false) {
            break;
        }
        i = i + 1;
    }
    if kind == SyntaxErrorKind::InvalidLiteral {
        i
    } else {
        i - 1
    }
}

/// How much of the input is malformed does not depend on the input behind it.
pub proof fn lemma_malformed_stable(
    expects_member_name: bool,
    in_array: bool,
    s: Seq<u8>,
    more: Seq<u8>,
    start: int,
)
    requires
        0 <= start <= s.len(),
    ensures
        start <= malformed_len(expects_member_name, in_array, s, start) <= s.len(),
        token_unit(expects_member_name, in_array, s, false) is Fault ==> malformed_len(
            expects_member_name,
            in_array,
            s + more,
            start,
        ) == malformed_len(expects_member_name, in_array, s, start),
    decreases s.len() - start,
{
    assert((s + more).take(start) =~= s.take(start));
    if start < s.len() {
        lemma_malformed_stable(expects_member_name, in_array, s, more, start + 1);
    } else {
        assert(s.take(start) =~= s);
    }
}

proof fn lemma_literal_stable(
    s: Seq<u8>,
    more: Seq<u8>,
    eof: bool,
    literal: Seq<u8>,
    value: PeekedValue,
)
    requires
        !(literal_unit(s, false, literal, value) is Incomplete),
    ensures
        literal_unit(s + more, eof, literal, value) == literal_unit(s, false, literal, value),
{
    let t = s + more;
    assert forall|i: int| 0 <= i < s.len() implies t[i] == s[i] by {}
    if differs(s, literal) {
        let i = choose|i: int|
            0 <= i < s.len() && i < literal.len() && #[trigger] s[i] != literal[i];
        assert(t[i] != literal[i]);
        assert(differs(t, literal));
    } else {
        assert(s.len() > literal.len());
        if differs(t, literal) {
            let i = choose|i: int|
                0 <= i < t.len() && i < literal.len() && #[trigger] t[i] != literal[i];
            assert(s[i] != literal[i]);
        }
    }
}

/// A token which is decided does not depend on the input behind it.
pub proof fn lemma_token_stable(
    expects_member_name: bool,
    in_array: bool,
    s: Seq<u8>,
    more: Seq<u8>,
    eof: bool,
)
    requires
        s.len() > 0,
        !(token_unit(expects_member_name, in_array, s, false) is Incomplete),
    ensures
        token_unit(expects_member_name, in_array, s + more, eof) == token_unit(
            expects_member_name,
            in_array,
            s,
            false,
        ),
{
    assert((s + more)[0] == s[0]);
    if !expects_member_name {
        if s[0] == 0x6E {
            lemma_literal_stable(s, more, eof, null_bytes(), PeekedValue::Null);
        } else if s[0] == 0x74 {
            lemma_literal_stable(s, more, eof, true_bytes(), PeekedValue::BooleanTrue);
        } else if s[0] == 0x66 {
            lemma_literal_stable(s, more, eof, false_bytes(), PeekedValue::BooleanFalse);
        }
    }
}

/// What every token is known for.
pub proof fn lemma_token_unit(expects_member_name: bool, in_array: bool, s: Seq<u8>, eof: bool)
    requires
        s.len() > 0,
    ensures
        token_unit(expects_member_name, in_array, s, eof) is Incomplete ==> !eof
            && s.len() < text::LONGEST_UNIT,
        token_unit(expects_member_name, in_array, s, eof) matches TokenUnit::Token { value, len }
            ==> len == token_len(value) && len <= s.len() && (value == PeekedValue::ArrayEnd
            ==> in_array && !expects_member_name) && (expects_member_name <==> value
            == PeekedValue::NameStart || value == PeekedValue::ObjectEnd) && (value
            == PeekedValue::NumberStart ==> s[0] == 0x2D || 0x30 <= s[0] <= 0x39),
{
}

} // verus!
