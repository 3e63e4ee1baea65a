//! Positions tell how much of the document has been consumed.

use vstd::prelude::*;
use vstd::utf8::*;

use crate::chars;
use crate::chars::CharUnit;
use crate::model;
use crate::model::{Outcome, PeekPhase, State, Task};
use crate::number;
use crate::space;
use crate::space::{CommentMode, SpaceUnit};
use crate::text;
use crate::text::TextUnit;
use crate::token;
use crate::token::TokenUnit;
use crate::types::{PeekedValue, Place, StackValue, ValueType};

verus! {

/// The place behind the text `s` which starts at `place`. _LF_, _CR_ and _CR LF_ are line
/// breaks. All other characters take up one column; the bytes which continue a character of
/// several bytes take up none.
pub open spec fn place_behind(place: Place, s: Seq<u8>) -> Place
    decreases s.len(),
{
    if s.len() == 0 {
        place
    } else if s[0] == 0x0D && s.len() > 1 && s[1] == 0x0A {
        place_behind(place.next_line(2), s.skip(2))
    } else if s[0] == 0x0A || s[0] == 0x0D {
        place_behind(place.next_line(1), s.skip(1))
    } else if is_continuation_byte(s[0]) {
        place_behind(place.forward(0, 1), s.skip(1))
    } else {
        place_behind(place.forward(1, 1), s.skip(1))
    }
}

/// The bytes of a token which have been taken from the input when it was recognized.
pub open spec fn token_bytes(value: PeekedValue) -> Seq<u8> {
    match value {
        PeekedValue::ObjectStart => seq![0x7Bu8],
        PeekedValue::ObjectEnd => seq![0x7Du8],
        PeekedValue::ArrayStart => seq![0x5Bu8],
        PeekedValue::ArrayEnd => seq![0x5Du8],
        PeekedValue::StringStart => seq![0x22u8],
        PeekedValue::NameStart => seq![0x22u8],
        PeekedValue::NumberStart => Seq::empty(),
        PeekedValue::Null => token::null_bytes(),
        PeekedValue::BooleanTrue => token::true_bytes(),
        PeekedValue::BooleanFalse => token::false_bytes(),
    }
}

/// The available input which has not been consumed. A token which has been recognized has not
/// been consumed.
pub open spec fn unconsumed(st: State) -> Seq<u8> {
    match st.peeked {
        Some(p) => token_bytes(p) + st.rest,
        None => st.rest,
    }
}

/// Whether the positions of all of the available input can be expressed.
pub open spec fn countable(st: State) -> bool {
    model::place_valid(st.place) && st.place.byte_pos + unconsumed(st).len() <= u64::MAX
}

/// Whether position `n` of `s` is between the two characters of one line break.
pub open spec fn splits_line_break(s: Seq<u8>, n: int) -> bool {
    0 < n < s.len() && s[n - 1] == 0x0D && s[n] == 0x0A
}

/// Whether the reader has come from state `a` to state `b` by consuming the input between
/// them, and its place is the one behind that input.
pub open spec fn travelled(a: State, b: State) -> bool {
    let n = unconsumed(a).len() - unconsumed(b).len();
    &&& n >= 0
    &&& unconsumed(b) == unconsumed(a).skip(n)
    &&& b.place == place_behind(a.place, unconsumed(a).take(n))
    &&& !splits_line_break(unconsumed(a), n)
    &&& countable(b)
    &&& b.place.byte_pos == a.place.byte_pos + n
}

/// The place behind two texts.
proof fn lemma_place_concat(place: Place, a: Seq<u8>, b: Seq<u8>)
    requires
        !(a.len() > 0 && b.len() > 0 && a.last() == 0x0D && b[0] == 0x0A),
    ensures
        place_behind(place, a + b) == place_behind(place_behind(place, a), b),
    decreases a.len(),
{
    let ab = a + b;
    if a.len() == 0 {
        assert(ab =~= b);
    } else if a[0] == 0x0D && a.len() > 1 && a[1] == 0x0A {
        assert(ab[0] == a[0] && ab[1] == a[1]);
        assert(ab.skip(2) =~= a.skip(2) + b);
        lemma_place_concat(place.next_line(2), a.skip(2), b);
    } else {
        assert(ab[0] == a[0]);
        assert(ab.skip(1) =~= a.skip(1) + b);
        assert(a.len() > 1 ==> ab[1] == a[1]);
        let next = if a[0] == 0x0A || a[0] == 0x0D {
            place.next_line(1)
        } else if is_continuation_byte(a[0]) {
            place.forward(0, 1)
        } else {
            place.forward(1, 1)
        };
        lemma_place_concat(next, a.skip(1), b);
    }
}

pub proof fn lemma_travel_on(a: State, b: State, c: State)
    requires
        travelled(a, b),
        travelled(b, c),
    ensures
        travelled(a, c),
{
    let ua = unconsumed(a);
    let ub = unconsumed(b);
    let uc = unconsumed(c);
    let n = ua.len() - ub.len();
    let m = ub.len() - uc.len();
    assert(ua.skip(n).skip(m) =~= ua.skip(n + m));
    assert(ua.take(n + m) =~= ua.take(n) + ub.take(m));
    lemma_place_concat(a.place, ua.take(n), ub.take(m));
}

pub proof fn lemma_stay(a: State, b: State)
    requires
        countable(a),
        unconsumed(b) == unconsumed(a),
        b.place == a.place,
    ensures
        travelled(a, b),
{
    assert(unconsumed(a).skip(0) =~= unconsumed(a));
    assert(unconsumed(a).take(0) =~= Seq::<u8>::empty());
}

/// Whether a byte is an ASCII character which is no control character.
pub open spec fn plain(byte: u8) -> bool {
    0x20 <= byte < 0x80
}

proof fn lemma_plain_place(place: Place, s: Seq<u8>)
    requires
        model::place_valid(place),
        place.byte_pos + s.len() <= u64::MAX,
        forall|i: int| 0 <= i < s.len() ==> plain(#[trigger] s[i]),
    ensures
        place_behind(place, s) == place.forward(s.len() as int, s.len() as int),
    decreases s.len(),
{
    if s.len() > 0 {
        assert(plain(s[0]));
        let tail = s.skip(1);
        assert forall|i: int| 0 <= i < tail.len() implies plain(#[trigger] tail[i]) by {
            assert(plain(s[i + 1]));
        }
        lemma_plain_place(place.forward(1, 1), tail);
    }
}

/// Consuming plain characters.
pub proof fn lemma_travel_plain(a: State, b: State, n: int)
    requires
        countable(a),
        0 <= n <= unconsumed(a).len(),
        forall|i: int| 0 <= i < n ==> plain(#[trigger] unconsumed(a)[i]),
        unconsumed(b) == unconsumed(a).skip(n),
        b.place == a.place.forward(n, n),
    ensures
        travelled(a, b),
{
    let s = unconsumed(a).take(n);
    assert forall|i: int| 0 <= i < s.len() implies plain(#[trigger] s[i]) by {
        assert(plain(unconsumed(a)[i]));
    }
    lemma_plain_place(a.place, s);
    if 0 < n {
        assert(plain(unconsumed(a)[n - 1]));
    }
}

/// Consuming a character of several bytes.
proof fn lemma_travel_multibyte(a: State, b: State, n: int)
    requires
        countable(a),
        chars::multibyte_unit(unconsumed(a), a.eof) == CharUnit::Char(n as usize),
        unconsumed(a).len() > 0,
        unconsumed(a)[0] >= 0x80,
        0 <= n <= 4,
        unconsumed(b) == unconsumed(a).skip(n),
        b.place == a.place.forward(1, n),
    ensures
        travelled(a, b),
{
    let u = unconsumed(a);
    let s = u.take(n);
    assert(2 <= n <= u.len());
    assert(!is_continuation_byte(s[0]));
    assert(is_continuation_byte(s[1]));
    let t1 = s.skip(1);
    let p1 = a.place.forward(1, 1);
    assert(t1[0] == s[1]);
    let t2 = t1.skip(1);
    let p2 = p1.forward(0, 1);
    assert(place_behind(a.place, s) == place_behind(p1, t1));
    assert(place_behind(p1, t1) == place_behind(p2, t2));
    if n > 2 {
        assert(t2[0] == s[2] && is_continuation_byte(s[2]));
        let t3 = t2.skip(1);
        let p3 = p2.forward(0, 1);
        assert(place_behind(p2, t2) == place_behind(p3, t3));
        if n > 3 {
            assert(t3[0] == s[3] && is_continuation_byte(s[3]));
            let t4 = t3.skip(1);
            assert(place_behind(p3, t3) == place_behind(p3.forward(0, 1), t4));
        }
    }
}

/// Consuming a piece of whitespace or comment.
pub proof fn lemma_travel_space_unit(st: State)
    requires
        countable(st),
        st.peeked is None,
    ensures
        model::space_here(st) matches SpaceUnit::Move { len, columns, line_break, mode }
            ==> travelled(st, model::space_moved(st, len, columns, line_break, mode)),
{
    reveal_with_fuel(place_behind, 2);
    let unit = model::space_here(st);
    space::lemma_space_unit(st.comment, st.settings.allow_comments, st.rest, st.eof);
    if let SpaceUnit::Move { len, columns, line_break, mode } = unit {
        let next = model::space_moved(st, len, columns, line_break, mode);
        if len == 0 {
            assert(st.rest.skip(0) =~= st.rest);
            lemma_stay(st, next);
        } else if line_break {
            let s = st.rest.take(len as int);
            assert(s.skip(len as int) =~= Seq::<u8>::empty());
            assert(place_behind(st.place, s) == st.place.next_line(len as int));
        } else if st.rest[0] >= 0x80 {
            lemma_travel_multibyte(st, next, len as int);
        } else if st.rest[0] == 0x09 {
            let s = st.rest.take(1);
            assert(s.skip(1) =~= Seq::<u8>::empty());
            assert(place_behind(st.place, s) == st.place.forward(1, 1));
        } else {
            lemma_travel_plain(st, next, len as int);
        }
    }
}

/// Skipping whitespace and comments leads to the place behind them.
pub proof fn law_space_position(st: State)
    requires
        countable(st),
        st.peeked is None,
    ensures
        model::space_run(st) matches Outcome::Ready(_, s) ==> travelled(st, s),
    decreases
            st.rest.len(),
            if st.comment == CommentMode::Line {
                1int
            } else {
                0int
            },
{
    space::lemma_space_unit(st.comment, st.settings.allow_comments, st.rest, st.eof);
    match model::space_here(st) {
        SpaceUnit::Move { len, columns, line_break, mode } => {
            let next = model::space_moved(st, len, columns, line_break, mode);
            lemma_travel_space_unit(st);
            law_space_position(next);
            if let Outcome::Ready(_, s) = model::space_run(next) {
                lemma_travel_on(st, next, s);
            }
        },
        SpaceUnit::Stop => {
            lemma_stay(st, st);
        },
        SpaceUnit::End => {
            lemma_stay(st, State { comment: CommentMode::Outside, ..st });
        },
        _ => {},
    }
}

/// Consuming one plain character.
proof fn lemma_travel_byte(a: State, b: State)
    requires
        countable(a),
        a.peeked is None,
        b.peeked is None,
        a.rest.len() > 0,
        plain(a.rest[0]),
        b.rest == a.rest.skip(1),
        b.place == a.place.forward(1, 1),
    ensures
        travelled(a, b),
{
    lemma_travel_plain(a, b, 1);
}

proof fn lemma_colon(st: State)
    requires
        countable(st),
        st.peeked is None,
    ensures
        model::colon_run(st) matches Outcome::Ready(_, s) ==> travelled(st, s) && s.peeked is None,
{
    law_space_position(st);
    model::lemma_space_work(st);
    lemma_stay(st, st);
    if let Outcome::Ready(_, s) = model::colon_run(st) {
        if let Outcome::Ready(_, found) = model::space_run(st) {
            if st.phase == PeekPhase::Start && st.expects_member_value() {
                lemma_travel_byte(found, s);
                lemma_travel_on(st, found, s);
            }
        }
    }
}

proof fn lemma_comma(st: State)
    requires
        countable(st),
        st.peeked is None,
    ensures
        model::comma_run(st) matches Outcome::Ready(_, s) ==> travelled(st, s) && s.peeked is None,
        model::comma_run(st) matches Outcome::Ready(true, s) ==> s.rest.len() > 0,
{
    law_space_position(st);
    model::lemma_space_work(st);
    if !(st.phase is Comma) {
        if let Outcome::Ready(Some(byte), found) = model::space_run(st) {
            if byte == 0x2C {
                let behind = State { phase: PeekPhase::Comma(found.place), ..found.moved(1, 1) };
                lemma_travel_byte(found, behind);
                lemma_travel_on(st, found, behind);
                law_space_position(behind);
                model::lemma_space_work(behind);
                if let Outcome::Ready(_, s) = model::space_run(behind) {
                    lemma_travel_on(st, behind, s);
                }
            }
        }
    }
}

/// The bytes of a token stand in the input.
pub proof fn lemma_token_bytes(expects_member_name: bool, in_array: bool, s: Seq<u8>, eof: bool)
    requires
        s.len() > 0,
    ensures
        token::token_unit(expects_member_name, in_array, s, eof) matches TokenUnit::Token {
            value,
            len,
        } ==> s == token_bytes(value) + s.skip(len as int),
{
    if let TokenUnit::Token { value, len } = token::token_unit(expects_member_name, in_array, s, eof) {
        token::lemma_token_unit(expects_member_name, in_array, s, eof);
        let bytes = token_bytes(value);
        assert(bytes.len() == len);
        assert forall|i: int| 0 <= i < len implies s[i] == bytes[i] by {
            if value == PeekedValue::Null || value == PeekedValue::BooleanTrue || value
                == PeekedValue::BooleanFalse {
                assert(!token::differs(s, bytes));
            }
        }
        assert(s =~= bytes + s.skip(len as int));
    }
}

/// Looking for the next token consumes what is in front of it, and not the token.
pub proof fn law_peek_position(st: State)
    requires
        countable(st),
    ensures
        model::peek_run(st) matches Outcome::Ready(_, s) ==> travelled(st, s),
{
    if st.peeked is Some {
        lemma_stay(st, st);
    } else {
        lemma_colon(st);
        if let Outcome::Ready(_, s) = model::colon_run(st) {
            lemma_comma(s);
            if let Outcome::Ready(found, s2) = model::comma_run(s) {
                lemma_travel_on(st, s, s2);
                if found {
                    lemma_token_bytes(s2.expects_member_name, s2.in_array(), s2.rest, s2.eof);
                    if let Outcome::Ready(_, s3) = model::token_run(s2) {
                        lemma_stay(s2, s3);
                        lemma_travel_on(st, s2, s3);
                    }
                }
            }
        }
    }
}

/// Consuming a token.
pub proof fn lemma_consume(st: State)
    requires
        countable(st),
        st.peeked is Some,
    ensures
        travelled(st, model::consume_token(st)),
{
    let bytes = token_bytes(st.peeked->0);
    let u = unconsumed(st);
    assert forall|i: int| 0 <= i < bytes.len() implies plain(#[trigger] u[i]) by {
        assert(u[i] == bytes[i]);
    }
    assert(u.skip(bytes.len() as int) =~= st.rest);
    lemma_travel_plain(st, model::consume_token(st), bytes.len() as int);
}

/// Starting a value, entering and leaving arrays and objects, and reading literals.
pub proof fn law_token_positions(
    st: State,
    expected: ValueType,
    check_depth: bool,
    kind: StackValue,
)
    requires
        countable(st),
    ensures
        model::expect_run(st, expected, check_depth) matches Outcome::Ready(_, s) ==> travelled(
            st,
            s,
        ),
        model::begin_run(st, kind) matches Outcome::Ready(_, s) ==> travelled(st, s),
        model::end_run(st) matches Outcome::Ready(_, s) ==> travelled(st, s),
        model::has_next_run(st) matches Outcome::Ready(_, s) ==> travelled(st, s),
        model::bool_run(st) matches Outcome::Ready(_, s) ==> travelled(st, s),
        model::null_run(st) matches Outcome::Ready(_, s) ==> travelled(st, s),
{
    law_peek_position(st);
    model::lemma_peek_work(st);
    if let Outcome::Ready(Some(p), s) = model::peek_run(st) {
        lemma_consume(s);
        lemma_travel_on(st, s, model::consume_token(s));
    }
}

/// The bytes of an escape sequence are plain characters.
proof fn lemma_escape_plain(s: Seq<u8>, eof: bool)
    ensures
        text::text_unit(s, eof) matches TextUnit::Escape { len, c } ==> forall|i: int|
            0 <= i < len ==> plain(#[trigger] s[i]),
{
    if let TextUnit::Escape { len, c } = text::text_unit(s, eof) {
        text::lemma_text_unit(s, eof);
        if s[1] == 0x75 {
            let a = s.skip(2);
            assert forall|i: int| 0 <= i < 4 implies plain(#[trigger] a[i]) by {
                assert(text::hex_value(a[i]) is Some);
            }
            if len == 12 {
                let b = a.skip(6);
                assert forall|i: int| 0 <= i < 4 implies plain(#[trigger] b[i]) by {
                    assert(text::hex_value(b[i]) is Some);
                }
                assert(a[4] == 0x5C && a[5] == 0x75);
            }
            assert forall|i: int| 0 <= i < len implies plain(#[trigger] s[i]) by {
                if 2 <= i < 6 {
                    assert(s[i] == a[i - 2]);
                } else if 6 <= i < 8 {
                    assert(s[i] == a[i - 2]);
                } else if 8 <= i {
                    assert(s[i] == a.skip(6)[i - 8]);
                }
            }
        }
    }
}

pub proof fn lemma_travel_text_unit(st: State, next: State)
    requires
        countable(st),
        st.peeked is None,
        next.peeked is None,
        ({
            let unit = text::text_unit(st.rest, st.eof);
            &&& unit is Raw || unit is Escape || unit is End
            &&& next.rest == st.rest.skip(text::unit_len(unit))
            &&& next.place == st.place.forward(text::unit_columns(unit), text::unit_len(unit))
        }),
    ensures
        travelled(st, next),
{
    let unit = text::text_unit(st.rest, st.eof);
    text::lemma_text_unit(st.rest, st.eof);
    match unit {
        TextUnit::Raw(len) => {
            if st.rest[0] >= 0x80 {
                lemma_travel_multibyte(st, next, len as int);
            } else {
                lemma_travel_byte(st, next);
            }
        },
        TextUnit::Escape { len, c } => {
            lemma_escape_plain(st.rest, st.eof);
            lemma_travel_plain(st, next, len as int);
        },
        _ => {
            lemma_travel_byte(st, next);
        },
    }
}

/// Reading the content of a string or member name.
pub proof fn law_text_position(st: State)
    requires
        countable(st),
        st.peeked is None,
    ensures
        model::text_run(st) matches Outcome::Ready(_, s) ==> travelled(st, s) && s.peeked is None,
    decreases st.rest.len(),
{
    let unit = text::text_unit(st.rest, st.eof);
    text::lemma_text_unit(st.rest, st.eof);
    match unit {
        TextUnit::Raw(_) | TextUnit::Escape { .. } => {
            let next = model::text_moved(st, unit);
            lemma_travel_text_unit(st, next);
            law_text_position(next);
            if let Outcome::Ready(_, s) = model::text_run(next) {
                lemma_travel_on(st, next, s);
            }
        },
        TextUnit::End => {
            lemma_travel_text_unit(st, st.moved(1, 1));
        },
        _ => {},
    }
}

proof fn lemma_number_byte(scan: number::NumberScan, byte: u8)
    requires
        scan.len < u64::MAX,
    ensures
        number::number_next(scan, byte) matches Some(next) ==> plain(byte) && next.len == scan.len
            + 1,
{
}

/// Reading a number leads behind its last character.
#[verifier::spinoff_prover]
#[verifier::rlimit(30)]
proof fn lemma_number_rest(st: State)
    requires
        model::place_valid(st.place),
        st.place.byte_pos + model::number_scan(st.task).len + st.rest.len() <= u64::MAX,
        st.task is Number || st.task is SkipNumber,
    ensures
        model::number_rest_run(st) matches Outcome::Ready(_, s) ==> {
            let n = st.rest.len() - s.rest.len();
            let len = model::number_scan(st.task).len + n;
            &&& n >= 0
            &&& s.rest == st.rest.skip(n)
            &&& s.place == st.place.forward(len, len)
            &&& forall|i: int| 0 <= i < n ==> plain(#[trigger] st.rest[i])
        },
    decreases st.rest.len(),
{
    assert(st.rest.skip(0) =~= st.rest);
    if st.rest.len() > 0 {
        if let Some(scan) = number::number_next(model::number_scan(st.task), st.rest[0]) {
            let next = model::number_moved(st, scan);
            lemma_number_byte(model::number_scan(st.task), st.rest[0]);
            lemma_number_rest(next);
            if let Outcome::Ready(_, s) = model::number_rest_run(next) {
                let m = next.rest.len() - s.rest.len();
                assert(st.rest.skip(1).skip(m) =~= st.rest.skip(1 + m));
                assert forall|i: int| 0 <= i < 1 + m implies plain(#[trigger] st.rest[i]) by {
                    if i > 0 {
                        assert(plain(next.rest[i - 1]));
                    }
                }
            }
        }
    }
}

proof fn lemma_number_from_start(st: State)
    requires
        countable(st),
        st.peeked is None,
        st.task is Number || st.task is SkipNumber,
        model::number_scan(st.task) == number::number_start(),
    ensures
        model::number_rest_run(st) matches Outcome::Ready(_, s) ==> travelled(st, s),
{
    lemma_number_rest(st);
    model::lemma_number_work(st);
    if let Outcome::Ready(_, s) = model::number_rest_run(st) {
        lemma_travel_plain(st, s, st.rest.len() - s.rest.len());
    }
}

/// Reading member names, strings and numbers leads to the place behind them.
#[verifier::spinoff_prover]
#[verifier::rlimit(40)]
pub proof fn law_value_positions(st: State, task: Task)
    requires
        countable(st),
        st.task == Task::Idle,
        task == Task::Name || task == Task::SkipName,
    ensures
        model::name_run(st, task) matches Outcome::Ready(_, s) ==> travelled(st, s),
        model::string_run(st) matches Outcome::Ready(_, s) ==> travelled(st, s),
        model::number_run(st) matches Outcome::Ready(_, s) ==> travelled(st, s),
{
    law_peek_position(st);
    model::lemma_peek_work(st);
    if let Outcome::Ready(Some(p), s) = model::peek_run(st) {
        let consumed = model::consume_token(s);
        lemma_consume(s);
        lemma_travel_on(st, s, consumed);
        let named = model::name_start(s, task);
        let text = State { task: Task::Text, text: Seq::empty(), ..consumed };
        let number = State {
            task: Task::Number(number::number_start()),
            text: Seq::empty(),
            ..consumed
        };
        lemma_value_text(st, consumed, named);
        lemma_value_text(st, consumed, text);
        lemma_value_number(st, consumed, number);
    }
}

proof fn lemma_value_text(st: State, consumed: State, begun: State)
    requires
        travelled(st, consumed),
        begun.place == consumed.place,
        begun.rest == consumed.rest,
        begun.peeked is None,
        consumed.peeked is None,
    ensures
        model::text_run(begun) matches Outcome::Ready(_, s) ==> travelled(st, s) && s.peeked is None,
{
    lemma_stay(consumed, begun);
    lemma_travel_on(st, consumed, begun);
    law_text_position(begun);
    if let Outcome::Ready(_, s) = model::text_run(begun) {
        lemma_travel_on(st, begun, s);
    }
}

proof fn lemma_value_number(st: State, consumed: State, begun: State)
    requires
        travelled(st, consumed),
        begun.place == consumed.place,
        begun.rest == consumed.rest,
        begun.peeked is None,
        consumed.peeked is None,
        begun.task is Number || begun.task is SkipNumber,
        model::number_scan(begun.task) == number::number_start(),
    ensures
        model::number_rest_run(begun) matches Outcome::Ready(_, s) ==> travelled(st, s),
{
    lemma_stay(consumed, begun);
    lemma_travel_on(st, consumed, begun);
    lemma_number_from_start(begun);
    if let Outcome::Ready(_, s) = model::number_rest_run(begun) {
        lemma_travel_on(st, begun, s);
    }
}

/// One step of skipping.
proof fn lemma_skip_step(st: State)
    requires
        countable(st),
        !(st.task is Number),
        !(st.task is SkipNumber),
        st.task != Task::Idle ==> st.peeked is None,
    ensures
        model::skip_step_run(st) matches Outcome::Ready(_, s) ==> {
            &&& travelled(st, s)
            &&& !(s.task is Number)
            &&& !(s.task is SkipNumber)
            &&& s.task != Task::Idle ==> s.peeked is None
        },
{
    match st.task {
        Task::SkipName => {
            law_text_position(st);
            model::lemma_text_work(st);
        },
        Task::SkipText => {
            law_text_position(st);
            model::lemma_text_work(st);
        },
        _ => {
            law_peek_position(st);
            model::lemma_peek_work(st);
            if let Outcome::Ready(p, s) = model::token_ahead_run(st) {
                let consumed = model::consume_token(s);
                lemma_consume(s);
                lemma_travel_on(st, s, consumed);
                if p == PeekedValue::NumberStart {
                    let begun = State {
                        task: Task::SkipNumber(number::number_start()),
                        text: Seq::empty(),
                        ..consumed
                    };
                    lemma_value_number(st, consumed, begun);
                    model::lemma_number_work(begun);
                }
            }
        },
    }
}

proof fn lemma_skip_rest(st: State)
    requires
        countable(st),
        !(st.task is Number),
        !(st.task is SkipNumber),
        st.task != Task::Idle ==> st.peeked is None,
    ensures
        model::skip_rest_run(st) matches Outcome::Ready(_, s) ==> travelled(st, s) && s.task
            == Task::Idle,
    decreases model::work(st),
{
    lemma_skip_step(st);
    model::lemma_skip_step_work(st);
    if let Outcome::Ready(_, s) = model::skip_step_run(st) {
        if !model::skip_done(s) {
            lemma_skip_rest(s);
            if let Outcome::Ready(_, s2) = model::skip_rest_run(s) {
                lemma_travel_on(st, s, s2);
            }
        }
    }
}

/// Skipping a value, and skipping to the top-level, lead to the place behind what was
/// skipped.
pub proof fn law_skip_positions(st: State)
    requires
        countable(st),
        st.task == Task::Idle,
    ensures
        model::skip_run(st) matches Outcome::Ready(_, s) ==> travelled(st, s),
        model::top_run(st) matches Outcome::Ready(_, s) ==> travelled(st, s),
{
    lemma_skip_rest(st);
    lemma_stay(st, model::skip_start(st));
    lemma_skip_rest(model::skip_start(st));
    if let Outcome::Ready(_, s) = model::skip_rest_run(model::skip_start(st)) {
        lemma_travel_on(st, model::skip_start(st), s);
    }
    lemma_top(st);
}

proof fn lemma_top_step(st: State)
    requires
        countable(st),
        st.task == Task::Idle || st.task == Task::SkipName && st.peeked is None,
    ensures
        model::top_step_run(st) matches Outcome::Ready(_, s) ==> {
            &&& travelled(st, s)
            &&& s.task == Task::Idle || s.task == Task::SkipName && s.peeked is None
        },
{
    if st.skip_depth is Some {
        lemma_skip_rest(st);
    } else if st.task == Task::SkipName {
        law_text_position(st);
    } else if st.expects_member_value() {
        lemma_stay(st, model::skip_start(st));
        lemma_skip_rest(model::skip_start(st));
        if let Outcome::Ready(_, s) = model::skip_rest_run(model::skip_start(st)) {
            lemma_travel_on(st, model::skip_start(st), s);
        }
    } else {
        law_peek_position(st);
        model::lemma_peek_work(st);
        if let Outcome::Ready(p, s) = model::token_ahead_run(st) {
            lemma_consume(s);
            lemma_travel_on(st, s, model::consume_token(s));
            lemma_stay(s, model::skip_start(s));
            lemma_travel_on(st, s, model::skip_start(s));
            lemma_skip_rest(model::skip_start(s));
            if let Outcome::Ready(_, s2) = model::skip_rest_run(model::skip_start(s)) {
                lemma_travel_on(st, model::skip_start(s), s2);
            }
        }
    }
}

proof fn lemma_top(st: State)
    requires
        countable(st),
        st.task == Task::Idle || st.task == Task::SkipName && st.peeked is None,
    ensures
        model::top_run(st) matches Outcome::Ready(_, s) ==> travelled(st, s),
    decreases model::work(st),
{
    if st.stack.len() == 0 && st.skip_depth is None && st.task == Task::Idle {
        lemma_stay(st, st);
    } else {
        lemma_top_step(st);
        model::lemma_top_step_work(st);
        if let Outcome::Ready(_, s) = model::top_step_run(st) {
            lemma_top(s);
            if let Outcome::Ready(_, s2) = model::top_run(s) {
                lemma_travel_on(st, s, s2);
            }
        }
    }
}

/// The number of line breaks in a text. _CR LF_ is one line break.
pub open spec fn line_breaks(s: Seq<u8>) -> nat
    decreases s.len(),
{
    if s.len() == 0 {
        0
    } else if s[0] == 0x0A || s[0] == 0x0D && !(s.len() > 1 && s[1] == 0x0A) {
        1 + line_breaks(s.skip(1))
    } else {
        line_breaks(s.skip(1))
    }
}

/// What stands on the last line of a text.
pub open spec fn last_line(s: Seq<u8>) -> Seq<u8>
    decreases s.len(),
{
    if line_breaks(s) == 0 || s.len() == 0 {
        s
    } else {
        last_line(s.skip(1))
    }
}

/// The number of characters of a text: all bytes but those which continue a character.
pub open spec fn char_count(s: Seq<u8>) -> nat
    decreases s.len(),
{
    if s.len() == 0 {
        0
    } else if 0x80 <= s[0] < 0xC0 {
        char_count(s.skip(1))
    } else {
        1 + char_count(s.skip(1))
    }
}

/// Positions count line breaks, the characters of the last line and bytes.
#[verifier::spinoff_prover]
#[verifier::rlimit(40)]
pub proof fn law_places(place: Place, s: Seq<u8>)
    requires
        model::place_valid(place),
        place.byte_pos + s.len() <= u64::MAX,
    ensures
        place_behind(place, s).line == place.line + line_breaks(s),
        place_behind(place, s).column == if line_breaks(s) == 0 {
            place.column + char_count(s)
        } else {
            char_count(last_line(s)) as int
        },
        place_behind(place, s).byte_pos == place.byte_pos + s.len(),
        line_breaks(s) <= s.len(),
        char_count(s) <= s.len(),
    decreases s.len(),
{
    if s.len() > 0 {
        let t = s.skip(1);
        if s[0] == 0x0D && s.len() > 1 && s[1] == 0x0A {
            assert(t[0] == 0x0A);
            assert(t.skip(1) =~= s.skip(2));
            law_places(place.next_line(2), s.skip(2));
            lemma_last_line(t.skip(1));
            assert(last_line(s) == last_line(t));
            lemma_char_count(t);
            lemma_char_count(s);
        } else if s[0] == 0x0A || s[0] == 0x0D {
            law_places(place.next_line(1), t);
            lemma_last_line(t);
            lemma_char_count(t);
        } else if is_continuation_byte(s[0]) {
            law_places(place.forward(0, 1), t);
        } else {
            law_places(place.forward(1, 1), t);
        }
    }
}

proof fn lemma_last_line(s: Seq<u8>)
    ensures
        line_breaks(s) == 0 ==> last_line(s) == s,
{
}

proof fn lemma_char_count(s: Seq<u8>)
    ensures
        char_count(s) <= s.len(),
    decreases s.len(),
{
    if s.len() > 0 {
        lemma_char_count(s.skip(1));
    }
}

} // verus!
