//! The elements of a document, each written down byte by byte, and what the operations of the
//! reader make of them.

use vstd::prelude::*;
use vstd::utf8::*;

use crate::gaps;
use crate::gaps::Gap;
use crate::laws;
use crate::model;
use crate::model::{Outcome, PeekPhase, State, Task};
use crate::number;
use crate::position;
use crate::space::CommentMode;
use crate::spelling;
use crate::spelling::{NumberText, Spelled};
use crate::string_reader;
use crate::string_reader::StringReaderModel;
use crate::text;
use crate::token;
use crate::types::{
    ErrorKind, ErrorModel, PathStep, PeekedValue, ReaderSettings, StackValue, Step,
    SyntaxErrorKind, UnexpectedStructureKind, ValueType,
};
use crate::usage;
use crate::usage::Operation;

verus! {

/// Whether the reader stands between two operations and has not looked at the next token yet.
pub open spec fn at_rest(st: State) -> bool {
    &&& st.peeked is None
    &&& st.comment == CommentMode::Outside
    &&& st.phase == PeekPhase::Start
    &&& st.task == Task::Idle
    &&& !st.string_reader_active
    &&& st.skip_depth is None
    &&& st.text == Seq::<u8>::empty()
    &&& st.expects_member_name ==> st.stack.len() > 0 && st.stack.last() == StackValue::Object
    &&& position::countable(st)
}

/// Whether the reader stands behind a member name, so that a colon comes next.
pub open spec fn colon_due(st: State) -> bool {
    st.stack.len() > 0 && st.stack.last() == StackValue::Object && !st.expects_member_name
}

/// Whether the reader stands behind an array item or object member, so that a comma comes next
/// or the end of the array or object.
pub open spec fn comma_due(st: State) -> bool {
    &&& !st.is_empty
    &&& st.stack.len() > 0
    &&& st.stack.last() == StackValue::Array || st.expects_member_name
}

/// What stands in front of the next name or value: a colon or comma if one is due, and
/// whitespace and comments on both sides of it. At top-level values are not separated.
pub open spec fn lead(st: State, before: Seq<Gap>, after: Seq<Gap>) -> Seq<u8> {
    if colon_due(st) {
        gaps::gap_bytes(before) + (seq![0x3Au8] + gaps::gap_bytes(after))
    } else if comma_due(st) {
        gaps::gap_bytes(before) + (seq![0x2Cu8] + gaps::gap_bytes(after))
    } else {
        gaps::gap_bytes(before)
    }
}

/// Whether the input is `tail` behind what stands in front of the next name or value.
pub open spec fn stands_before(st: State, before: Seq<Gap>, after: Seq<Gap>, tail: Seq<u8>) -> bool {
    &&& gaps::is_gap(st.settings.allow_comments, before)
    &&& gaps::is_gap(st.settings.allow_comments, after)
    &&& st.rest == lead(st, before, after) + tail
}

/// Whether the input starts with a byte which is neither whitespace nor starts a comment.
pub open spec fn is_solid(s: Seq<u8>) -> bool {
    s.len() > 0 && !gaps::is_blank(s[0]) && s[0] != 0x2F
}

/// The state when only `tail` is left of the input and a value has been consumed.
pub open spec fn behind_value(st: State, tail: Seq<u8>) -> State {
    State {
        is_empty: false,
        expects_member_name: st.stack.len() > 0 && st.stack.last() == StackValue::Object,
        path: path_behind(st.stack, st.path),
        ..gaps::further(st, tail)
    }
}

/// The path behind a value. In an array it leads to the next item.
pub open spec fn path_behind(stack: Seq<StackValue>, path: Option<Seq<PathStep>>) -> Option<
    Seq<PathStep>,
> {
    match path {
        Some(steps) => if stack.len() > 0 && stack.last() == StackValue::Array && steps.len() > 0 {
            match steps.last() {
                PathStep::Item(index) => Some(
                    steps.drop_last().push(PathStep::Item((index + 1) as u64)),
                ),
                PathStep::Member(_) => path,
            }
        } else {
            path
        },
        None => None,
    }
}

/// Whether the path has a step for each array and object: an index or a name.
pub open spec fn path_fits(st: State) -> bool {
    st.path matches Some(steps) ==> {
        &&& steps.len() == st.stack.len()
        &&& forall|i: int|
            0 <= i < steps.len() ==> (st.stack[i] == StackValue::Array <==> #[trigger] steps[i]
                is Item)
    }
}

/// The byte behind a gap.
proof fn lemma_found(st: State, pieces: Seq<Gap>, tail: Seq<u8>) -> (next: State)
    requires
        position::countable(st),
        st.peeked is None,
        st.comment == CommentMode::Outside,
        gaps::is_gap(st.settings.allow_comments, pieces),
        st.rest == gaps::gap_bytes(pieces) + tail,
        is_solid(tail),
    ensures
        model::space_run(st) == Outcome::Ready(Some(tail[0]), next),
        position::travelled(st, next),
        next == (State { place: next.place, rest: tail, ..st }),
{
    let next = gaps::lemma_gap(st, pieces, tail);
    next
}

/// One plain character is consumed.
proof fn lemma_plain_moved(st: State, tail: Seq<u8>)
    requires
        position::countable(st),
        st.peeked is None,
        st.rest.len() > 0,
        0x20 <= st.rest[0] < 0x80,
        st.rest.skip(1) == tail,
    ensures
        position::travelled(st, st.moved(1, 1)),
        st.moved(1, 1).rest == tail,
{
    assert(position::plain(position::unconsumed(st)[0]));
    position::lemma_travel_plain(st, st.moved(1, 1), 1);
}

/// The place of a state which has been reached.
proof fn lemma_place(st: State, found: State, tail: Seq<u8>)
    requires
        position::travelled(st, found),
        st.peeked is None,
        found.peeked is None,
        found.rest == tail,
    ensures
        found.place == gaps::further(st, tail).place,
{
}

/// The state behind a colon or comma.
spec fn separated(st: State, separator: u8) -> State {
    State {
        phase: if separator == 0x3A {
            PeekPhase::Colon
        } else {
            PeekPhase::Comma(st.place)
        },
        ..st.moved(1, 1)
    }
}

/// A gap, one separator and a gap.
#[verifier::spinoff_prover]
#[verifier::rlimit(40)]
proof fn lemma_around(
    st: State,
    before: Seq<Gap>,
    separator: u8,
    after: Seq<Gap>,
    tail: Seq<u8>,
) -> (r: (State, State))
    requires
        position::countable(st),
        st.peeked is None,
        st.comment == CommentMode::Outside,
        gaps::is_gap(st.settings.allow_comments, before),
        gaps::is_gap(st.settings.allow_comments, after),
        st.rest == gaps::gap_bytes(before) + (seq![separator] + gaps::gap_bytes(after)) + tail,
        separator == 0x2C || separator == 0x3A,
        is_solid(tail),
    ensures
        ({
            let (s, found) = r;
            let at = seq![separator] + gaps::gap_bytes(after) + tail;
            &&& model::space_run(st) == Outcome::Ready(Some(separator), s)
            &&& s == (State { place: s.place, rest: at, ..st })
            &&& position::travelled(st, s)
            &&& model::space_run(separated(s, separator)) == Outcome::Ready(Some(tail[0]), found)
            &&& found == (State {
                place: found.place,
                phase: separated(s, separator).phase,
                rest: tail,
                ..st
            })
            &&& position::travelled(st, found)
        }),
{
    let at = seq![separator] + gaps::gap_bytes(after) + tail;
    assert(st.rest =~= gaps::gap_bytes(before) + at);
    assert(at[0] == separator);
    let s = lemma_found(st, before, at);
    assert(at.skip(1) =~= gaps::gap_bytes(after) + tail);
    lemma_plain_moved(s, at.skip(1));
    let s1 = separated(s, separator);
    assert(position::travelled(s, s1));
    position::lemma_travel_on(st, s, s1);
    let found = lemma_found(s1, after, tail);
    position::lemma_travel_on(st, s1, found);
    (s, found)
}

/// The token behind a colon is looked at.
#[verifier::spinoff_prover]
#[verifier::rlimit(40)]
proof fn lemma_lead_colon(st: State, before: Seq<Gap>, after: Seq<Gap>, tail: Seq<u8>) -> (found:
    State)
    requires
        at_rest(st),
        colon_due(st),
        stands_before(st, before, after, tail),
        is_solid(tail),
        tail[0] != 0x2C,
    ensures
        model::peek_run(st) == model::token_run(found),
        position::travelled(st, found),
        found == (State { place: found.place, phase: PeekPhase::Colon, rest: tail, ..st }),
{
    let (s, found) = lemma_around(st, before, 0x3A, after, tail);
    let s1 = separated(s, 0x3A);
    assert(model::colon_run(st) == Outcome::Ready((), s1));
    assert(model::comma_run(s1) == Outcome::Ready(true, found));
    found
}

/// The token behind a comma is looked at.
#[verifier::spinoff_prover]
#[verifier::rlimit(40)]
proof fn lemma_lead_comma(st: State, before: Seq<Gap>, after: Seq<Gap>, tail: Seq<u8>) -> (found:
    State)
    requires
        at_rest(st),
        comma_due(st),
        gaps::is_gap(st.settings.allow_comments, before),
        gaps::is_gap(st.settings.allow_comments, after),
        st.rest == gaps::gap_bytes(before) + (seq![0x2Cu8] + gaps::gap_bytes(after)) + tail,
        is_solid(tail),
    ensures
        model::peek_run(st) == model::token_run(found),
        position::travelled(st, found),
        found == (State {
            place: found.place,
            phase: PeekPhase::Comma(
                gaps::further(st, seq![0x2Cu8] + gaps::gap_bytes(after) + tail).place,
            ),
            rest: tail,
            ..st
        }),
{
    let (s, found) = lemma_around(st, before, 0x2C, after, tail);
    lemma_place(st, s, seq![0x2Cu8] + gaps::gap_bytes(after) + tail);
    let s1 = separated(s, 0x2C);
    assert(model::colon_run(st) == Outcome::Ready((), st));
    assert(model::behind_comma_run(s1) == Outcome::Ready(true, found));
    assert(model::comma_run(st) == Outcome::Ready(true, found));
    found
}

/// The token behind whitespace and comments is looked at.
#[verifier::spinoff_prover]
#[verifier::rlimit(40)]
proof fn lemma_lead_plain(st: State, before: Seq<Gap>, tail: Seq<u8>) -> (found: State)
    requires
        at_rest(st),
        !colon_due(st),
        gaps::is_gap(st.settings.allow_comments, before),
        st.rest == gaps::gap_bytes(before) + tail,
        is_solid(tail),
        tail[0] != 0x2C,
    ensures
        model::peek_run(st) == model::token_run(found),
        position::travelled(st, found),
        found == (State { place: found.place, rest: tail, ..st }),
{
    let found = lemma_found(st, before, tail);
    assert(model::colon_run(st) == Outcome::Ready((), st));
    assert(model::comma_run(st) == Outcome::Ready(true, found));
    found
}

/// The token behind what stands in front of it is looked at.
#[verifier::spinoff_prover]
#[verifier::rlimit(40)]
proof fn lemma_lead(st: State, before: Seq<Gap>, after: Seq<Gap>, tail: Seq<u8>) -> (found: State)
    requires
        at_rest(st),
        stands_before(st, before, after, tail),
        is_solid(tail),
        tail[0] == 0x2C ==> comma_due(st),
    ensures
        model::peek_run(st) == model::token_run(found),
        position::travelled(st, found),
        found == (State { place: found.place, phase: found.phase, rest: tail, ..st }),
        found.phase is Comma <==> comma_due(st),
        found.place == gaps::further(st, tail).place,
{
    let found = if colon_due(st) {
        lemma_lead_colon(st, before, after, tail)
    } else if comma_due(st) {
        lemma_lead_comma(st, before, after, tail)
    } else {
        lemma_lead_plain(st, before, tail)
    };
    lemma_place(st, found, tail);
    found
}

/// The token has been looked at.
#[verifier::spinoff_prover]
#[verifier::rlimit(40)]
proof fn lemma_token(
    st: State,
    before: Seq<Gap>,
    after: Seq<Gap>,
    tail: Seq<u8>,
    value: PeekedValue,
) -> (s: State)
    requires
        at_rest(st),
        stands_before(st, before, after, tail),
        is_solid(tail),
        tail[0] != 0x2C,
        token::token_unit(st.expects_member_name, st.in_array(), tail, st.eof) == (
        token::TokenUnit::Token { value, len: position::token_bytes(value).len() as usize }),
        !model::is_end(value),
        tail.take(position::token_bytes(value).len() as int) == position::token_bytes(value),
        position::token_bytes(value).len() <= tail.len(),
    ensures
        model::peek_run(st) == Outcome::Ready(Some(value), s),
        s == (State {
            peeked: Some(value),
            place: s.place,
            rest: tail.skip(position::token_bytes(value).len() as int),
            ..st
        }),
        position::travelled(st, s),
        s.place == gaps::further(st, tail).place,
        position::unconsumed(s) == tail,
{
    let found = lemma_lead(st, before, after, tail);
    let n = position::token_bytes(value).len() as int;
    let s = State {
        peeked: Some(value),
        phase: PeekPhase::Start,
        rest: found.rest.skip(n),
        ..found
    };
    assert(position::token_bytes(value) + tail.skip(n) =~= tail);
    position::lemma_stay(found, s);
    position::lemma_travel_on(st, found, s);
    s
}

/// The token is consumed.
proof fn lemma_consumed(st: State, s: State, value: PeekedValue) -> (next: State)
    requires
        position::countable(st),
        position::travelled(st, s),
        s.peeked == Some(value),
    ensures
        next == model::consume_token(s),
        position::travelled(st, next),
        next == (State { peeked: None, place: next.place, ..s }),
{
    position::lemma_consume(s);
    let next = model::consume_token(s);
    position::lemma_travel_on(st, s, next);
    next
}

/// Which bytes a value of a certain type starts with.
proof fn lemma_value_token(st: State, tail: Seq<u8>) -> (value: PeekedValue)
    requires
        tail.len() > 0,
        !st.expects_member_name,
        tail[0] == 0x5B || tail[0] == 0x7B || tail[0] == 0x22 || tail[0] == 0x2D
            || spelling::is_decimal(tail[0]),
    ensures
        token::token_unit(st.expects_member_name, st.in_array(), tail, st.eof) == (
        token::TokenUnit::Token { value, len: position::token_bytes(value).len() as usize }),
        tail.take(position::token_bytes(value).len() as int) == position::token_bytes(value),
        position::token_bytes(value).len() <= tail.len(),
        value == if tail[0] == 0x5B {
            PeekedValue::ArrayStart
        } else if tail[0] == 0x7B {
            PeekedValue::ObjectStart
        } else if tail[0] == 0x22 {
            PeekedValue::StringStart
        } else {
            PeekedValue::NumberStart
        },
{
    if tail[0] == 0x5B {
        assert(tail.take(1) =~= seq![0x5Bu8]);
        PeekedValue::ArrayStart
    } else if tail[0] == 0x7B {
        assert(tail.take(1) =~= seq![0x7Bu8]);
        PeekedValue::ObjectStart
    } else if tail[0] == 0x22 {
        assert(tail.take(1) =~= seq![0x22u8]);
        PeekedValue::StringStart
    } else {
        assert(tail.take(0) =~= Seq::<u8>::empty());
        PeekedValue::NumberStart
    }
}

/// `true`, `false` and `null`.
pub open spec fn literal(value: Option<bool>) -> Seq<u8> {
    match value {
        Some(true) => seq![0x74u8, 0x72u8, 0x75u8, 0x65u8],
        Some(false) => seq![0x66u8, 0x61u8, 0x6Cu8, 0x73u8, 0x65u8],
        None => seq![0x6Eu8, 0x75u8, 0x6Cu8, 0x6Cu8],
    }
}

#[verifier::spinoff_prover]
#[verifier::rlimit(40)]
proof fn lemma_literal_token(st: State, which: Option<bool>, behind: Seq<u8>) -> (value: PeekedValue)
    requires
        !st.expects_member_name,
    ensures
        value == match which {
            Some(true) => PeekedValue::BooleanTrue,
            Some(false) => PeekedValue::BooleanFalse,
            None => PeekedValue::Null,
        },
        ({
            let tail = literal(which) + behind;
            &&& spelling::may_follow(behind, st.eof) ==> token::token_unit(
                st.expects_member_name,
                st.in_array(),
                tail,
                st.eof,
            ) == (token::TokenUnit::Token {
                value,
                len: position::token_bytes(value).len() as usize,
            })
            &&& behind.len() > 0 && !spelling::may_follow(behind, st.eof) ==> token::token_unit(
                st.expects_member_name,
                st.in_array(),
                tail,
                st.eof,
            ) == token::TokenUnit::Fault(SyntaxErrorKind::TrailingDataAfterLiteral)
            &&& tail.take(position::token_bytes(value).len() as int) == position::token_bytes(value)
            &&& position::token_bytes(value).len() <= tail.len()
            &&& tail.skip(position::token_bytes(value).len() as int) == behind
        }),
{
    let tail = literal(which) + behind;
    let word = literal(which);
    assert(!token::differs(tail, word)) by {
        assert forall|i: int| 0 <= i < word.len() implies tail[i] == word[i] by {}
    }
    assert(tail.take(word.len() as int) =~= word);
    assert(tail.skip(word.len() as int) =~= behind);
    assert(behind.len() > 0 ==> tail[word.len() as int] == behind[0]);
    match which {
        Some(true) => {
            assert(word =~= token::true_bytes());
            assert(tail[0] == 0x74);
            PeekedValue::BooleanTrue
        },
        Some(false) => {
            assert(word =~= token::false_bytes());
            assert(tail[0] == 0x66);
            PeekedValue::BooleanFalse
        },
        None => {
            assert(word =~= token::null_bytes());
            assert(tail[0] == 0x6E);
            PeekedValue::Null
        },
    }
}

/// The state behind a value of which the token or the content has been consumed.
proof fn lemma_value_end(st: State, s: State, tail: Seq<u8>)
    requires
        at_rest(st),
        path_fits(st),
        position::travelled(st, s),
        s == (State { place: s.place, rest: tail, ..st }),
    ensures
        model::value_end(s) == behind_value(st, tail),
{
    assert(s =~= gaps::further(st, tail));
    if let Some(steps) = st.path {
        if st.in_array() {
            assert(steps.last() is Item);
            assert(steps.update(
                steps.len() - 1,
                PathStep::Item((steps.last()->Item_0 + 1) as u64),
            ) =~= steps.drop_last().push(PathStep::Item((steps.last()->Item_0 + 1) as u64)));
        }
    }
    assert(st.in_object() == (st.stack.len() > 0 && st.stack.last() == StackValue::Object));
    assert(model::value_end(s) =~= behind_value(st, tail));
}

/// A literal is read as what it says. Every byte with which whitespace starts, a comma, a closing
/// bracket and the end of the input may follow it directly; other data may not.
#[verifier::spinoff_prover]
#[verifier::rlimit(40)]
pub proof fn law_literals(
    st: State,
    before: Seq<Gap>,
    after: Seq<Gap>,
    which: Option<bool>,
    behind: Seq<u8>,
)
    requires
        at_rest(st),
        path_fits(st),
        !st.expects_member_name,
        stands_before(st, before, after, literal(which) + behind),
    ensures
        spelling::may_follow(behind, st.eof) ==> match which {
            Some(value) => model::bool_run(st) == Outcome::Ready(value, behind_value(st, behind))
                && model::null_run(st) is Failed,
            None => model::null_run(st) == Outcome::Ready((), behind_value(st, behind))
                && model::bool_run(st) is Failed,
        },
        behind.len() > 0 && !spelling::may_follow(behind, st.eof) ==> {
            let start = literal(which) + behind;
            let kind = SyntaxErrorKind::TrailingDataAfterLiteral;
            &&& gaps::fails_at(model::bool_run(st), st, kind, start)
            &&& gaps::fails_at(model::null_run(st), st, kind, start)
        },
{
    let tail = literal(which) + behind;
    let value = lemma_literal_token(st, which, behind);
    assert(tail[0] == literal(which)[0]);
    if spelling::may_follow(behind, st.eof) {
        let s = lemma_token(st, before, after, tail, value);
        let next = lemma_consumed(st, s, value);
        assert(next =~= State { place: next.place, rest: behind, ..st });
        lemma_value_end(st, next, behind);
    } else if behind.len() > 0 {
        let found = lemma_lead(st, before, after, tail);
    }
}

/// A number or literal may be followed by each of the bytes with which whitespace starts: space,
/// tab, _LF_ and _CR_. It is read exactly, and the whitespace is left.
#[verifier::spinoff_prover]
#[verifier::rlimit(40)]
pub proof fn law_whitespace_behind_values(
    st: State,
    before: Seq<Gap>,
    after: Seq<Gap>,
    number: NumberText,
    blank: u8,
    tail: Seq<u8>,
)
    requires
        at_rest(st),
        path_fits(st),
        !st.expects_member_name,
        blank == 0x20 || blank == 0x09 || blank == 0x0A || blank == 0x0D,
        spelling::is_number_text(number),
        st.settings.restrict_number_values ==> spelling::is_moderate(number),
    ensures
        stands_before(st, before, after, spelling::number_bytes(number) + (seq![blank] + tail))
            ==> model::number_run(st) == Outcome::Ready(
            model::text_chars(spelling::number_bytes(number)),
            behind_value(st, seq![blank] + tail),
        ),
        stands_before(st, before, after, literal(Some(true)) + (seq![blank] + tail))
            ==> model::bool_run(st) == Outcome::Ready(true, behind_value(st, seq![blank] + tail)),
        stands_before(st, before, after, literal(Some(false)) + (seq![blank] + tail))
            ==> model::bool_run(st) == Outcome::Ready(false, behind_value(st, seq![blank] + tail)),
        stands_before(st, before, after, literal(None) + (seq![blank] + tail)) ==> model::null_run(
            st,
        ) == Outcome::Ready((), behind_value(st, seq![blank] + tail)),
{
    let behind = seq![blank] + tail;
    assert(behind[0] == blank);
    if stands_before(st, before, after, spelling::number_bytes(number) + behind) {
        law_numbers(st, before, after, number, behind);
    }
    if stands_before(st, before, after, literal(Some(true)) + behind) {
        law_literals(st, before, after, Some(true), behind);
    }
    if stands_before(st, before, after, literal(Some(false)) + behind) {
        law_literals(st, before, after, Some(false), behind);
    }
    if stands_before(st, before, after, literal(None) + behind) {
        law_literals(st, before, after, None, behind);
    }
}

/// A number is read as it is written. Every byte with which whitespace starts, a comma, a closing
/// bracket and the end of the input may follow it directly. Where numbers are restricted, one with
/// more than 100 characters or an exponent of more than two digits is rejected.
#[verifier::spinoff_prover]
#[verifier::rlimit(40)]
pub proof fn law_numbers(
    st: State,
    before: Seq<Gap>,
    after: Seq<Gap>,
    number: NumberText,
    behind: Seq<u8>,
)
    requires
        at_rest(st),
        path_fits(st),
        !st.expects_member_name,
        spelling::is_number_text(number),
        stands_before(st, before, after, spelling::number_bytes(number) + behind),
        spelling::may_follow(behind, st.eof),
    ensures
        !(st.settings.restrict_number_values && !spelling::is_moderate(number))
            ==> model::number_run(st) == Outcome::Ready(
            model::text_chars(spelling::number_bytes(number)),
            behind_value(st, behind),
        ),
        st.settings.restrict_number_values && !spelling::is_moderate(number) ==> (model::number_run(
            st,
        ) matches Outcome::Failed(e, _) && e == (ErrorModel::UnsupportedNumberValue {
            number: model::text_chars(spelling::number_bytes(number)),
            location: gaps::further(st, spelling::number_bytes(number) + behind).position(),
        })),
{
    let digits = spelling::number_bytes(number);
    let tail = digits + behind;
    assert(spelling::is_decimal(number.integer[0]));
    assert(tail[0] == digits[0]);
    let value = lemma_value_token(st, tail);
    let s = lemma_token(st, before, after, tail, value);
    let begun = lemma_consumed(st, s, value);
    let reading = State {
        task: Task::Number(number::number_start()),
        text: Seq::empty(),
        ..begun
    };
    assert(tail.skip(0) =~= tail);
    assert(position::travelled(st, reading));
    let next = spelling::lemma_read_number(reading, number, behind);
    position::lemma_travel_on(st, reading, next);
    assert(begun.place == s.place);
    assert(next =~= State { place: next.place, rest: behind, ..st });
    lemma_value_end(st, next, behind);
}

/// `"`, the content, and `"`.
pub open spec fn quoted(pieces: Seq<Spelled>) -> Seq<u8> {
    seq![0x22u8] + spelling::spelling_bytes(pieces) + seq![0x22u8]
}

/// The opening `"` of a string is consumed.
proof fn lemma_string_begun(
    st: State,
    before: Seq<Gap>,
    after: Seq<Gap>,
    content: Seq<u8>,
) -> (begun: State)
    requires
        at_rest(st),
        !st.expects_member_name,
        stands_before(st, before, after, seq![0x22u8] + content),
    ensures
        model::expect_run(st, ValueType::String, false) == Outcome::Ready(
            PeekedValue::StringStart,
            begun,
        ),
        position::travelled(st, begun),
        begun == (State { place: begun.place, rest: content, ..st }),
{
    let tail = seq![0x22u8] + content;
    assert(tail[0] == 0x22);
    let value = lemma_value_token(st, tail);
    let s = lemma_token(st, before, after, tail, value);
    let begun = lemma_consumed(st, s, value);
    assert(begun.rest =~= content);
    begun
}

/// A string is read as the text which it stands for, however its characters are written.
#[verifier::spinoff_prover]
#[verifier::rlimit(40)]
pub proof fn law_strings(
    st: State,
    before: Seq<Gap>,
    after: Seq<Gap>,
    pieces: Seq<Spelled>,
    behind: Seq<u8>,
)
    requires
        at_rest(st),
        path_fits(st),
        !st.expects_member_name,
        spelling::is_spelling(pieces),
        stands_before(st, before, after, quoted(pieces) + behind),
    ensures
        model::string_run(st) == Outcome::Ready(
            spelling::meaning(pieces),
            behind_value(st, behind),
        ),
{
    let close = seq![0x22u8] + behind;
    let content = spelling::spelling_bytes(pieces) + close;
    assert(quoted(pieces) + behind =~= seq![0x22u8] + content);
    let begun = lemma_string_begun(st, before, after, content);
    let reading = State { task: Task::Text, text: Seq::empty(), ..begun };
    assert(position::travelled(st, reading));
    let read = spelling::lemma_spelled_text(reading, pieces, behind);
    position::lemma_travel_on(st, reading, read);
    let done = read.idle();
    assert(done =~= State { place: done.place, rest: behind, ..st });
    assert(position::travelled(st, done));
    lemma_value_end(st, done, behind);
    assert(decode_utf8(Seq::<u8>::empty()) =~= Seq::<char>::empty());
    assert(decode_utf8(reading.text) + spelling::meaning(pieces) =~= spelling::meaning(pieces));
}

/// A string in which something stands which may not is rejected, with an error which says what
/// it is and where it stands.
pub proof fn law_defective_strings(
    st: State,
    before: Seq<Gap>,
    after: Seq<Gap>,
    pieces: Seq<Spelled>,
    bad: Seq<u8>,
)
    requires
        at_rest(st),
        !st.expects_member_name,
        spelling::is_spelling(pieces),
        stands_before(
            st,
            before,
            after,
            seq![0x22u8] + (spelling::spelling_bytes(pieces) + bad),
        ),
    ensures
        spelling::text_defect(bad, st.eof) matches Some(kind) ==> gaps::fails_at(
            model::string_run(st),
            st,
            kind,
            bad,
        ),
        bad.len() >= 4 && bad[0] >= 0x80 && !valid_first_scalar(bad) ==> (model::string_run(
            st,
        ) matches Outcome::Failed(e, _) && e is Io && e->Io_kind == ErrorKind::InvalidData
            && e->Io_location == gaps::further(st, bad).position()),
{
    let begun = lemma_string_begun(
        st,
        before,
        after,
        spelling::spelling_bytes(pieces) + bad,
    );
    let reading = State { task: Task::Text, text: Seq::empty(), ..begun };
    assert(position::travelled(st, reading));
    let next = spelling::lemma_defective_text(reading, pieces, bad);
    position::lemma_travel_on(st, reading, next);
    lemma_place(st, next, bad);
    assert(next.position() == gaps::further(st, bad).position());
}

/// The state behind a member name.
pub open spec fn behind_name(st: State, name: Seq<char>, tail: Seq<u8>) -> State {
    State {
        expects_member_name: false,
        path: match st.path {
            Some(steps) => Some(steps.drop_last().push(PathStep::Member(name))),
            None => None,
        },
        ..gaps::further(st, tail)
    }
}

/// The opening `"` of a member name is consumed.
#[verifier::spinoff_prover]
#[verifier::rlimit(40)]
proof fn lemma_name_begun(
    st: State,
    before: Seq<Gap>,
    after: Seq<Gap>,
    content: Seq<u8>,
    task: Task,
) -> (begun: State)
    requires
        at_rest(st),
        st.expects_member_name,
        stands_before(st, before, after, seq![0x22u8] + content),
    ensures
        model::has_next_run(st) matches Outcome::Ready(true, _),
        model::before_name_run(st, task) == Outcome::Ready((), begun),
        position::travelled(st, begun),
        begun == (State {
            place: begun.place,
            rest: content,
            task,
            expects_member_name: false,
            ..st
        }),
{
    let tail = seq![0x22u8] + content;
    assert(tail[0] == 0x22);
    let value = PeekedValue::NameStart;
    assert(tail.take(1) =~= position::token_bytes(value));
    let s = lemma_token(st, before, after, tail, value);
    let consumed = lemma_consumed(st, s, value);
    let begun = model::name_start(s, task);
    assert(begun.rest =~= content);
    assert(begun =~= State { task, expects_member_name: false, ..consumed });
    assert(position::travelled(st, begun));
    begun
}

/// A member name is read as the text which it stands for, however its characters are written, and
/// becomes part of the path. Skipping the name leads to the same state.
pub proof fn law_names(
    st: State,
    before: Seq<Gap>,
    after: Seq<Gap>,
    pieces: Seq<Spelled>,
    behind: Seq<u8>,
)
    requires
        at_rest(st),
        path_fits(st),
        st.expects_member_name,
        spelling::is_spelling(pieces),
        stands_before(st, before, after, quoted(pieces) + behind),
    ensures
        model::name_run(st, Task::Name) == Outcome::Ready(
            spelling::meaning(pieces),
            behind_name(st, spelling::meaning(pieces), behind),
        ),
        model::name_run(st, Task::SkipName) matches Outcome::Ready(_, s) && s == behind_name(
            st,
            spelling::meaning(pieces),
            behind,
        ),
{
    lemma_name(st, before, after, pieces, behind, Task::Name);
    lemma_name(st, before, after, pieces, behind, Task::SkipName);
}

#[verifier::spinoff_prover]
#[verifier::rlimit(40)]
proof fn lemma_name(
    st: State,
    before: Seq<Gap>,
    after: Seq<Gap>,
    pieces: Seq<Spelled>,
    behind: Seq<u8>,
    task: Task,
)
    requires
        at_rest(st),
        path_fits(st),
        st.expects_member_name,
        spelling::is_spelling(pieces),
        stands_before(st, before, after, quoted(pieces) + behind),
        task == Task::Name || task == Task::SkipName,
    ensures
        model::name_run(st, task) matches Outcome::Ready(name, s) && s == behind_name(
            st,
            spelling::meaning(pieces),
            behind,
        ) && (task == Task::Name ==> name == spelling::meaning(pieces)),
{
    let close = seq![0x22u8] + behind;
    let content = spelling::spelling_bytes(pieces) + close;
    assert(quoted(pieces) + behind =~= seq![0x22u8] + content);
    let reading = lemma_name_begun(st, before, after, content, task);
    let read = spelling::lemma_spelled_text(reading, pieces, behind);
    position::lemma_travel_on(st, reading, read);
    assert(decode_utf8(Seq::<u8>::empty()) =~= Seq::<char>::empty());
    assert(decode_utf8(reading.text) + spelling::meaning(pieces) =~= spelling::meaning(pieces));
    let end = model::name_end(read);
    lemma_place(st, read, behind);
    if let Some(steps) = st.path {
        assert(steps.update(
            steps.len() - 1,
            PathStep::Member(spelling::meaning(pieces)),
        ) =~= steps.drop_last().push(PathStep::Member(spelling::meaning(pieces))));
    }
    assert(end =~= behind_name(st, spelling::meaning(pieces), behind));
}

/// The type of the next value is told by how it starts: `[`, `{`, `"`, `-` or a digit, or one of
/// the literals. Another array item, object member or top-level value follows in all these
/// cases. Nothing but what stands in front of the value is consumed.
#[verifier::spinoff_prover]
#[verifier::rlimit(40)]
pub proof fn law_types(
    st: State,
    before: Seq<Gap>,
    after: Seq<Gap>,
    tail: Seq<u8>,
    which: Option<bool>,
    behind: Seq<u8>,
)
    requires
        at_rest(st),
        !st.expects_member_name,
        stands_before(st, before, after, tail),
        tail.len() > 0,
    ensures
        tail[0] == 0x5B ==> shows(st, tail, ValueType::Array),
        tail[0] == 0x7B ==> shows(st, tail, ValueType::Object),
        tail[0] == 0x22 ==> shows(st, tail, ValueType::String),
        tail[0] == 0x2D || spelling::is_decimal(tail[0]) ==> shows(st, tail, ValueType::Number),
        tail == literal(which) + behind && spelling::may_follow(behind, st.eof) ==> shows(
            st,
            tail,
            match which {
                Some(_) => ValueType::Boolean,
                None => ValueType::Null,
            },
        ),
{
    if tail[0] == 0x5B || tail[0] == 0x7B || tail[0] == 0x22 || tail[0] == 0x2D
        || spelling::is_decimal(tail[0]) {
        let value = lemma_value_token(st, tail);
        let s = lemma_token(st, before, after, tail, value);
    }
    if tail == literal(which) + behind && spelling::may_follow(behind, st.eof) {
        assert(tail[0] == literal(which)[0]);
        let value = lemma_literal_token(st, which, behind);
        let s = lemma_token(st, before, after, tail, value);
    }
}

/// Whether the next value is of the given type, starts where `tail` does, and has not been
/// consumed.
pub open spec fn shows(st: State, tail: Seq<u8>, ty: ValueType) -> bool {
    &&& model::type_ahead_run(st) matches Outcome::Ready(actual, s)
    &&& actual == ty
    &&& s == (State { place: gaps::further(st, tail).place, peeked: s.peeked, rest: s.rest, ..st })
    &&& position::unconsumed(s) == tail
    &&& model::has_next_run(st) == Outcome::Ready(true, s)
}

/// The state in an array or object which has been entered.
pub open spec fn entered(st: State, kind: StackValue, tail: Seq<u8>) -> State {
    State {
        stack: st.stack.push(kind),
        is_empty: true,
        expects_member_name: kind == StackValue::Object,
        path: match st.path {
            Some(steps) => Some(
                steps.push(
                    if kind == StackValue::Array {
                        PathStep::Item(0)
                    } else {
                        PathStep::Member("<?>"@)
                    },
                ),
            ),
            None => None,
        },
        ..gaps::further(st, tail)
    }
}

/// A `[` starts an array and a `{` an object. It is entered, unless that is deeper than the
/// settings allow.
#[verifier::spinoff_prover]
#[verifier::rlimit(40)]
pub proof fn law_entering(
    st: State,
    before: Seq<Gap>,
    after: Seq<Gap>,
    kind: StackValue,
    behind: Seq<u8>,
)
    requires
        at_rest(st),
        !st.expects_member_name,
        stands_before(
            st,
            before,
            after,
            seq![
                if kind == StackValue::Array {
                    0x5Bu8
                } else {
                    0x7Bu8
                },
            ] + behind,
        ),
    ensures
        (st.settings.max_nesting_depth matches Some(max) ==> st.stack.len() < max)
            ==> model::begin_run(st, kind) == Outcome::Ready((), entered(st, kind, behind)),
        (st.settings.max_nesting_depth matches Some(max) && st.stack.len() >= max) ==> (
        model::begin_run(st, kind) matches Outcome::Failed(e, _) && e is MaxNestingDepthExceeded),
{
    let tail = seq![
        if kind == StackValue::Array {
            0x5Bu8
        } else {
            0x7Bu8
        },
    ] + behind;
    let value = lemma_value_token(st, tail);
    let s = lemma_token(st, before, after, tail, value);
    let next = lemma_consumed(st, s, value);
    assert(next.rest =~= behind);
    lemma_place(st, next, behind);
    assert(model::container_start(next, kind) =~= entered(st, kind, behind));
}

/// What an array or object ends with.
pub open spec fn closer(st: State) -> u8 {
    if st.stack.last() == StackValue::Array {
        0x5D
    } else {
        0x7D
    }
}

/// The state behind an array or object which has been left.
pub open spec fn left(st: State, tail: Seq<u8>) -> State {
    behind_value_at(
        State {
            stack: st.stack.drop_last(),
            path: match st.path {
                Some(steps) => Some(steps.drop_last()),
                None => None,
            },
            ..gaps::further(st, tail)
        },
    )
}

/// The state behind a value, where the reader is already.
pub open spec fn behind_value_at(st: State) -> State {
    State {
        is_empty: false,
        expects_member_name: st.stack.len() > 0 && st.stack.last() == StackValue::Object,
        path: path_behind(st.stack, st.path),
        ..st
    }
}

/// The end of an array or object, behind a comma or not.
#[verifier::spinoff_prover]
#[verifier::rlimit(40)]
proof fn lemma_closing(st: State, found: State, behind: Seq<u8>)
    requires
        at_rest(st),
        path_fits(st),
        st.stack.len() > 0,
        st.stack.last() == StackValue::Object ==> st.expects_member_name,
        model::peek_run(st) == model::token_run(found),
        position::travelled(st, found),
        found == (State {
            place: found.place,
            phase: found.phase,
            rest: seq![closer(st)] + behind,
            ..st
        }),
        found.phase is Comma ==> st.settings.allow_trailing_comma,
    ensures
        model::end_run(st) == Outcome::Ready((), left(st, behind)),
        model::has_next_run(st) matches Outcome::Ready(false, _),
        model::type_ahead_run(st) matches Outcome::Failed(e, _) && e is UnexpectedStructure,
{
    assert(found.rest[0] == closer(st));
    let value = if st.stack.last() == StackValue::Array {
        PeekedValue::ArrayEnd
    } else {
        PeekedValue::ObjectEnd
    };
    let s = State {
        peeked: Some(value),
        phase: PeekPhase::Start,
        rest: found.rest.skip(1),
        ..found
    };
    assert(found.rest.skip(1) =~= behind);
    assert(position::token_bytes(value) + behind =~= found.rest);
    assert(model::token_run(found) == Outcome::Ready(Some(value), s));
    position::lemma_stay(found, s);
    position::lemma_travel_on(st, found, s);
    let next = lemma_consumed(st, s, value);
    lemma_place(st, next, behind);
    let outer = State {
        stack: st.stack.drop_last(),
        path: match st.path {
            Some(steps) => Some(steps.drop_last()),
            None => None,
        },
        expects_member_name: false,
        ..next
    };
    if let Some(steps) = outer.path {
        if outer.in_array() {
            let last = steps.len() - 1;
            assert(st.path->0[last] is Item) by {
                assert(st.stack[last] == StackValue::Array);
            }
            assert(steps.last() == st.path->0[last]);
            assert(steps.update(last, PathStep::Item((steps.last()->Item_0 + 1) as u64))
                =~= steps.drop_last().push(PathStep::Item((steps.last()->Item_0 + 1) as u64)));
        }
    }
    assert(model::value_end(outer) =~= left(st, behind));
}

/// The closing bracket ends the array or object; there is no next element then. The outer array
/// or object is continued as behind any other value.
pub proof fn law_leaving(st: State, before: Seq<Gap>, behind: Seq<u8>)
    requires
        at_rest(st),
        path_fits(st),
        st.stack.len() > 0,
        st.stack.last() == StackValue::Object ==> st.expects_member_name,
        gaps::is_gap(st.settings.allow_comments, before),
        st.rest == gaps::gap_bytes(before) + (seq![closer(st)] + behind),
    ensures
        model::end_run(st) == Outcome::Ready((), left(st, behind)),
        model::has_next_run(st) matches Outcome::Ready(false, _),
        model::type_ahead_run(st) matches Outcome::Failed(e, _) && e is UnexpectedStructure,
{
    let tail = seq![closer(st)] + behind;
    assert(tail[0] == closer(st));
    let found = lemma_lead_plain(st, before, tail);
    lemma_closing(st, found, behind);
}

/// A comma in front of the closing bracket is accepted where the settings allow it and something
/// stands in front of it. Otherwise it is answered with an error at the comma.
#[verifier::spinoff_prover]
#[verifier::rlimit(40)]
pub proof fn law_trailing_comma(st: State, before: Seq<Gap>, after: Seq<Gap>, behind: Seq<u8>)
    requires
        at_rest(st),
        path_fits(st),
        st.stack.len() > 0,
        st.stack.last() == StackValue::Object ==> st.expects_member_name,
        gaps::is_gap(st.settings.allow_comments, before),
        gaps::is_gap(st.settings.allow_comments, after),
        st.rest == gaps::gap_bytes(before) + (seq![0x2Cu8] + gaps::gap_bytes(after)) + (seq![
            closer(st),
        ] + behind),
    ensures
        !st.is_empty && st.settings.allow_trailing_comma ==> model::end_run(st) == Outcome::Ready(
            (),
            left(st, behind),
        ) && (model::has_next_run(st) matches Outcome::Ready(false, _)),
        !st.is_empty && !st.settings.allow_trailing_comma ==> rejected(
            st,
            SyntaxErrorKind::TrailingCommaNotEnabled,
            seq![0x2Cu8] + gaps::gap_bytes(after) + (seq![closer(st)] + behind),
        ),
        st.is_empty ==> rejected(
            st,
            SyntaxErrorKind::UnexpectedComma,
            seq![0x2Cu8] + gaps::gap_bytes(after) + (seq![closer(st)] + behind),
        ),
{
    let tail = seq![closer(st)] + behind;
    let comma = seq![0x2Cu8] + gaps::gap_bytes(after) + tail;
    assert(tail[0] == closer(st));
    assert(comma[0] == 0x2C);
    if st.is_empty {
        assert(st.rest =~= gaps::gap_bytes(before) + comma);
        law_unexpected_comma(st, before, comma);
    } else {
        let found = lemma_lead_comma(st, before, after, tail);
        if st.settings.allow_trailing_comma {
            lemma_closing(st, found, behind);
        } else {
            let s = State { place: found.phase->Comma_0, ..found };
            assert(model::token_run(found) == Outcome::<Option<PeekedValue>>::Failed(
                model::syntax_error(SyntaxErrorKind::TrailingCommaNotEnabled, s),
                model::token_missed(s),
            ));
            lemma_rejected(st, SyntaxErrorKind::TrailingCommaNotEnabled, comma);
        }
    }
}

/// Whether whatever is tried next fails with the syntax error of the given kind, where the input
/// `at` starts.
pub open spec fn rejected(st: State, kind: SyntaxErrorKind, at: Seq<u8>) -> bool {
    &&& gaps::fails_at(model::type_ahead_run(st), st, kind, at)
    &&& gaps::fails_at(model::has_next_run(st), st, kind, at)
    &&& gaps::fails_at(model::end_run(st), st, kind, at)
    &&& gaps::fails_at(model::begin_run(st, StackValue::Array), st, kind, at)
    &&& gaps::fails_at(model::begin_run(st, StackValue::Object), st, kind, at)
    &&& gaps::fails_at(model::bool_run(st), st, kind, at)
    &&& gaps::fails_at(model::null_run(st), st, kind, at)
    &&& gaps::fails_at(model::number_run(st), st, kind, at)
    &&& gaps::fails_at(model::string_run(st), st, kind, at)
    &&& gaps::fails_at(model::string_reader_run(st), st, kind, at)
    &&& gaps::fails_at(model::name_run(st, Task::Name), st, kind, at)
    &&& gaps::fails_at(model::name_run(st, Task::SkipName), st, kind, at)
}

#[verifier::spinoff_prover]
#[verifier::rlimit(40)]
proof fn lemma_rejected(st: State, kind: SyntaxErrorKind, at: Seq<u8>)
    requires
        st.task == Task::Idle,
        gaps::fails_at(model::peek_run(st), st, kind, at),
    ensures
        rejected(st, kind, at),
{
}

/// A comma is rejected where none is due: in front of the first array item or object member,
/// behind a colon, and at top-level. Behind another comma it is rejected too.
pub proof fn law_unexpected_comma(st: State, before: Seq<Gap>, comma: Seq<u8>)
    requires
        at_rest(st),
        !comma_due(st),
        !colon_due(st),
        gaps::is_gap(st.settings.allow_comments, before),
        st.rest == gaps::gap_bytes(before) + comma,
        comma.len() > 0,
        comma[0] == 0x2C,
    ensures
        rejected(st, SyntaxErrorKind::UnexpectedComma, comma),
{
    let s = lemma_found(st, before, comma);
    lemma_place(st, s, comma);
    assert(model::colon_run(st) == Outcome::Ready((), st));
    lemma_rejected(st, SyntaxErrorKind::UnexpectedComma, comma);
}

/// Two elements of an array or object without a comma between them are rejected.
#[verifier::spinoff_prover]
#[verifier::rlimit(40)]
pub proof fn law_missing_comma(st: State, before: Seq<Gap>, tail: Seq<u8>)
    requires
        at_rest(st),
        comma_due(st),
        gaps::is_gap(st.settings.allow_comments, before),
        st.rest == gaps::gap_bytes(before) + tail,
        tail.len() > 0,
        tail[0] == 0x22 || !st.expects_member_name && (tail[0] == 0x5B || tail[0] == 0x7B || tail[0]
            == 0x2D || spelling::is_decimal(tail[0])),
    ensures
        rejected(st, SyntaxErrorKind::MissingComma, tail),
{
    let found = lemma_lead_plain(st, before, tail);
    lemma_place(st, found, tail);
    lemma_rejected(st, SyntaxErrorKind::MissingComma, tail);
}

/// A literal behind another element without a comma between them is rejected too.
#[verifier::spinoff_prover]
#[verifier::rlimit(40)]
pub proof fn law_missing_comma_before_literal(
    st: State,
    before: Seq<Gap>,
    which: Option<bool>,
    behind: Seq<u8>,
)
    requires
        at_rest(st),
        comma_due(st),
        !st.expects_member_name,
        gaps::is_gap(st.settings.allow_comments, before),
        st.rest == gaps::gap_bytes(before) + (literal(which) + behind),
        spelling::may_follow(behind, st.eof),
    ensures
        rejected(st, SyntaxErrorKind::MissingComma, literal(which) + behind),
{
    let tail = literal(which) + behind;
    let value = lemma_literal_token(st, which, behind);
    assert(tail[0] == literal(which)[0]);
    let found = lemma_lead_plain(st, before, tail);
    lemma_place(st, found, tail);
    lemma_rejected(st, SyntaxErrorKind::MissingComma, tail);
}

/// A member name which no colon follows is rejected.
pub proof fn law_missing_colon(st: State, before: Seq<Gap>, tail: Seq<u8>)
    requires
        at_rest(st),
        colon_due(st),
        gaps::is_gap(st.settings.allow_comments, before),
        st.rest == gaps::gap_bytes(before) + tail,
        is_solid(tail) && tail[0] != 0x3A || tail.len() == 0 && st.eof,
    ensures
        rejected(st, SyntaxErrorKind::MissingColon, tail),
{
    let s = gaps::lemma_gap(st, before, tail);
    lemma_place(st, s, tail);
    lemma_rejected(st, SyntaxErrorKind::MissingColon, tail);
}

/// Which error is the answer to a byte with which no value starts, where one has to: a closing
/// bracket which does not fit, a comma, a colon, or anything else.
pub open spec fn misplaced(st: State, byte: u8) -> Option<SyntaxErrorKind> {
    if byte == 0x7D || byte == 0x5D && !(st.stack.len() > 0 && st.stack.last()
        == StackValue::Array) {
        Some(SyntaxErrorKind::UnexpectedClosingBracket)
    } else if byte == 0x2C {
        Some(SyntaxErrorKind::UnexpectedComma)
    } else if byte == 0x3A {
        Some(SyntaxErrorKind::UnexpectedColon)
    } else if byte == 0x5D || byte == 0x5B || byte == 0x7B || byte == 0x22 || byte == 0x2D
        || spelling::is_decimal(byte) || byte == 0x74 || byte == 0x66 || byte == 0x6E {
        None
    } else {
        Some(SyntaxErrorKind::MalformedJson)
    }
}

/// Where a value has to follow, anything else is rejected.
#[verifier::spinoff_prover]
#[verifier::rlimit(40)]
pub proof fn law_misplaced(st: State, before: Seq<Gap>, after: Seq<Gap>, tail: Seq<u8>)
    requires
        at_rest(st),
        !st.expects_member_name,
        stands_before(st, before, after, tail),
        is_solid(tail),
        tail[0] == 0x2C ==> !colon_due(st),
    ensures
        misplaced(st, tail[0]) matches Some(kind) ==> rejected(st, kind, tail),
{
    if let Some(kind) = misplaced(st, tail[0]) {
        if tail[0] == 0x2C && !comma_due(st) {
            law_unexpected_comma(st, before, tail);
        } else {
            let found = lemma_lead(st, before, after, tail);
            lemma_rejected(st, kind, tail);
        }
    }
}

/// Where a member name or the end of the object has to follow, anything else is rejected.
#[verifier::spinoff_prover]
#[verifier::rlimit(40)]
pub proof fn law_misplaced_in_object(st: State, before: Seq<Gap>, after: Seq<Gap>, tail: Seq<u8>)
    requires
        at_rest(st),
        st.expects_member_name,
        stands_before(st, before, after, tail),
        is_solid(tail),
        tail[0] != 0x22,
        tail[0] != 0x7D,
        tail[0] == 0x2C ==> comma_due(st),
    ensures
        rejected(st, SyntaxErrorKind::ExpectingMemberNameOrObjectEnd, tail),
{
    let found = lemma_lead(st, before, after, tail);
    lemma_rejected(st, SyntaxErrorKind::ExpectingMemberNameOrObjectEnd, tail);
}

/// Words which start like a literal but are none are rejected.
#[verifier::spinoff_prover]
#[verifier::rlimit(40)]
pub proof fn law_misspelled_literals(
    st: State,
    before: Seq<Gap>,
    after: Seq<Gap>,
    which: Option<bool>,
    tail: Seq<u8>,
    i: int,
)
    requires
        at_rest(st),
        !st.expects_member_name,
        stands_before(st, before, after, tail),
        tail.len() > 0,
        tail[0] == literal(which)[0],
        0 <= i < literal(which).len(),
        i < tail.len() && tail[i] != literal(which)[i] || tail.len() <= i && st.eof,
    ensures
        rejected(st, SyntaxErrorKind::InvalidLiteral, tail),
{
    let word = literal(which);
    let found = lemma_lead(st, before, after, tail);
    match which {
        Some(true) => {
            assert(word =~= token::true_bytes());
        },
        Some(false) => {
            assert(word =~= token::false_bytes());
        },
        None => {
            assert(word =~= token::null_bytes());
        },
    }
    if i < tail.len() {
        assert(token::differs(tail, word));
    }
    lemma_rejected(st, SyntaxErrorKind::InvalidLiteral, tail);
}

/// Where the input ends although something has to follow, the document is incomplete. Behind a
/// top-level value, where several are allowed, there are just no more of them; and whether there
/// are more top-level values can always be asked.
#[verifier::spinoff_prover]
#[verifier::rlimit(40)]
pub proof fn law_end_of_input(st: State, before: Seq<Gap>)
    requires
        at_rest(st),
        !colon_due(st),
        st.eof,
        gaps::is_gap(st.settings.allow_comments, before),
        st.rest == gaps::gap_bytes(before),
    ensures
        st.stack.len() == 0 ==> model::has_next_run(st) == Outcome::Ready(
            false,
            gaps::further(st, Seq::empty()),
        ),
        st.stack.len() > 0 ==> rejected(st, SyntaxErrorKind::IncompleteDocument, Seq::empty()),
        st.stack.len() == 0 && (st.is_empty || !st.settings.allow_multiple_top_level)
            ==> gaps::fails_at(
            model::type_ahead_run(st),
            st,
            SyntaxErrorKind::IncompleteDocument,
            Seq::empty(),
        ),
        st.stack.len() == 0 && !st.is_empty && st.settings.allow_multiple_top_level ==> (
        model::type_ahead_run(st) matches Outcome::Failed(e, _) && e == (
        ErrorModel::UnexpectedStructure {
            kind: UnexpectedStructureKind::FewerElementsThanExpected,
            location: gaps::further(st, Seq::empty()).position(),
        })),
{
    assert(st.rest =~= gaps::gap_bytes(before) + Seq::<u8>::empty());
    let s = gaps::lemma_gap(st, before, Seq::empty());
    lemma_place(st, s, Seq::empty());
    assert(model::colon_run(st) == Outcome::Ready((), st));
    assert(model::comma_run(st) == Outcome::Ready(false, s));
    assert(model::peek_run(st) == Outcome::<Option<PeekedValue>>::Ready(None, s));
    assert(s =~= gaps::further(st, Seq::empty()));
}

/// At top-level another value follows exactly if the type of a next value can be told, and none
/// follows exactly if only whitespace and comments stand in front of the end of the input.
#[verifier::spinoff_prover]
#[verifier::rlimit(40)]
pub proof fn law_has_next_at_top_level(st: State)
    requires
        st.stack.len() == 0,
        !st.expects_member_name,
        st.phase == PeekPhase::Start,
        model::peeked_valid(st),
    ensures
        model::has_next_run(st) matches Outcome::Ready(true, s) ==> (model::type_ahead_run(
            st,
        ) matches Outcome::Ready(_, s2) && s2 == s),
        model::type_ahead_run(st) matches Outcome::Ready(_, s) ==> model::has_next_run(st)
            == Outcome::Ready(true, s),
        st.peeked is None ==> (model::has_next_run(st) matches Outcome::Ready(false, s)
            ==> model::trailing_run(st) == Outcome::Ready((), s)),
        st.peeked is None ==> (model::trailing_run(st) matches Outcome::Ready(_, s)
            ==> model::has_next_run(st) == Outcome::Ready(false, s)),
        st.peeked is Some ==> (model::has_next_run(st) matches Outcome::Ready(true, _)),
{
    if st.peeked is None {
        model::lemma_space_work(st);
        assert(model::colon_run(st) == Outcome::Ready((), st));
        if let Outcome::Ready(Some(_), s) = model::space_run(st) {
            token::lemma_token_unit(s.expects_member_name, s.in_array(), s.rest, s.eof);
        }
        if let Outcome::Ready(None, s) = model::space_run(st) {
            assert(model::token_missed(s) =~= s);
        }
    }
}

/// In an array or object another element follows exactly if it cannot be left: leaving it works
/// exactly if there is no next element, and fails because of the further elements exactly if
/// there is one.
pub proof fn law_has_next_in_containers(st: State)
    requires
        st.stack.len() > 0,
    ensures
        model::has_next_run(st) matches Outcome::Ready(false, _) ==> model::end_run(st) is Ready,
        model::end_run(st) is Ready ==> (model::has_next_run(st) matches Outcome::Ready(false, _)),
        model::has_next_run(st) matches Outcome::Ready(true, s) ==> (model::end_run(
            st,
        ) matches Outcome::Failed(e, s2) && s2 == s && e == (ErrorModel::UnexpectedStructure {
            kind: UnexpectedStructureKind::MoreElementsThanExpected,
            location: s.position(),
        })),
        model::end_run(st) matches Outcome::Failed(e, s) ==> (e is UnexpectedStructure
            ==> model::has_next_run(st) == Outcome::Ready(true, s)),
        model::has_next_run(st) is Failed <==> (model::end_run(st) matches Outcome::Failed(e, _)
            && !(e is UnexpectedStructure)),
{
    laws::lemma_peek_failures(st);
    model::lemma_peek_work(st);
}

/// The number is about to be read.
proof fn lemma_number_begun(
    st: State,
    before: Seq<Gap>,
    after: Seq<Gap>,
    tail: Seq<u8>,
) -> (reading: State)
    requires
        at_rest(st),
        !st.expects_member_name,
        stands_before(st, before, after, tail),
        tail.len() > 0,
        tail[0] == 0x2D || spelling::is_decimal(tail[0]),
    ensures
        model::number_run(st) == model::number_value_run(reading),
        position::travelled(st, reading),
        reading == (State {
            place: gaps::further(st, tail).place,
            task: Task::Number(number::number_start()),
            rest: tail,
            ..st
        }),
{
    let value = lemma_value_token(st, tail);
    let s = lemma_token(st, before, after, tail, value);
    let begun = lemma_consumed(st, s, value);
    let reading = State {
        task: Task::Number(number::number_start()),
        text: Seq::empty(),
        ..begun
    };
    assert(tail.skip(0) =~= tail);
    assert(begun.place == s.place);
    reading
}

/// A number which is directly followed by other data is rejected behind the number.
pub proof fn law_data_behind_number(
    st: State,
    before: Seq<Gap>,
    after: Seq<Gap>,
    number: NumberText,
    behind: Seq<u8>,
)
    requires
        at_rest(st),
        !st.expects_member_name,
        spelling::is_number_text(number),
        st.settings.restrict_number_values ==> spelling::is_moderate(number),
        stands_before(st, before, after, spelling::number_bytes(number) + behind),
        behind.len() > 0,
        !spelling::may_follow(behind, st.eof),
        !spelling::is_decimal(behind[0]),
        behind[0] != 0x2E,
        behind[0] != 0x65,
        behind[0] != 0x45,
    ensures
        gaps::fails_at(
            model::number_run(st),
            st,
            SyntaxErrorKind::TrailingDataAfterNumber,
            behind,
        ),
{
    let tail = spelling::number_bytes(number) + behind;
    assert(spelling::is_decimal(number.integer[0]));
    assert(tail[0] == spelling::number_bytes(number)[0]);
    let reading = lemma_number_begun(st, before, after, tail);
    let next = spelling::lemma_trailing_number(reading, number, behind);
    position::lemma_travel_on(st, reading, next);
    lemma_place(st, next, behind);
}

/// A number in which digits are missing is rejected where it starts.
pub proof fn law_malformed_numbers(
    st: State,
    before: Seq<Gap>,
    after: Seq<Gap>,
    number: NumberText,
    start: Seq<u8>,
    behind: Seq<u8>,
)
    requires
        at_rest(st),
        !st.expects_member_name,
        spelling::is_number_text(number),
        spelling::unfinished(number, start),
        stands_before(st, before, after, start + behind),
        behind.len() == 0 ==> st.eof,
        behind.len() > 0 ==> !spelling::is_decimal(behind[0]) && behind[0] != 0x2B && behind[0]
            != 0x2D,
    ensures
        gaps::fails_at(
            model::number_run(st),
            st,
            SyntaxErrorKind::MalformedNumber,
            start + behind,
        ),
{
    let tail = start + behind;
    let sample = State {
        task: Task::Number(number::number_start()),
        rest: tail,
        ..st
    };
    spelling::lemma_malformed_number(sample, number, start, behind);
    assert(tail[0] == start[0]);
    let reading = lemma_number_begun(st, before, after, tail);
    spelling::lemma_malformed_number(reading, number, start, behind);
}

/// Whatever is read as number is the text of a number, and is not directly followed by other
/// data.
pub proof fn law_number_results(st: State)
    requires
        st.task == Task::Idle,
    ensures
        model::number_run(st) matches Outcome::Ready(text, s) ==> spelling::may_follow(
            s.rest,
            s.eof,
        ) && exists|bytes: Seq<u8>| #[trigger]
            spelling::spells_number(bytes) && text == model::text_chars(bytes),
{
    if let Outcome::Ready(_, begun) = model::expect_run(st, ValueType::Number, false) {
        let reading = State {
            task: Task::Number(number::number_start()),
            text: Seq::empty(),
            ..begun
        };
        spelling::law_only_numbers(reading);
    }
}

/// Behind a comma or colon the input may not end.
#[verifier::spinoff_prover]
#[verifier::rlimit(40)]
pub proof fn law_end_behind_separator(st: State, before: Seq<Gap>, after: Seq<Gap>)
    requires
        at_rest(st),
        st.eof,
        colon_due(st) || comma_due(st),
        stands_before(st, before, after, Seq::empty()),
    ensures
        rejected(st, SyntaxErrorKind::IncompleteDocument, Seq::empty()),
{
    let separator = if colon_due(st) {
        0x3Au8
    } else {
        0x2Cu8
    };
    let at = seq![separator] + gaps::gap_bytes(after);
    assert(st.rest =~= gaps::gap_bytes(before) + at);
    assert(at[0] == separator);
    let s = lemma_found(st, before, at);
    assert(at.skip(1) =~= gaps::gap_bytes(after) + Seq::<u8>::empty());
    lemma_plain_moved(s, at.skip(1));
    let s1 = separated(s, separator);
    assert(position::travelled(s, s1));
    position::lemma_travel_on(st, s, s1);
    let end = gaps::lemma_gap(s1, after, Seq::empty());
    position::lemma_travel_on(st, s1, end);
    lemma_place(st, end, Seq::empty());
    let kind = SyntaxErrorKind::IncompleteDocument;
    if colon_due(st) {
        assert(model::colon_run(st) == Outcome::Ready((), s1));
        assert(model::comma_run(s1) == Outcome::Ready(false, model::token_missed(end)));
        assert(model::peek_run(st) == Outcome::<Option<PeekedValue>>::Ready(
            None,
            model::token_missed(end),
        ));
    } else {
        assert(model::colon_run(st) == Outcome::Ready((), st));
        assert(model::behind_comma_run(s1) == Outcome::<bool>::Failed(
            model::syntax_error(kind, end),
            model::token_missed(end),
        ));
        lemma_rejected(st, kind, Seq::empty());
    }
}

/// Behind the last top-level value only whitespace and comments may stand; anything else is
/// reported where it starts.
pub proof fn law_trailing_data(st: State, before: Seq<Gap>, tail: Seq<u8>)
    requires
        at_rest(st),
        gaps::is_gap(st.settings.allow_comments, before),
        st.rest == gaps::gap_bytes(before) + tail,
        is_solid(tail),
    ensures
        gaps::fails_at(model::trailing_run(st), st, SyntaxErrorKind::TrailingData, tail),
{
    let s = lemma_found(st, before, tail);
    lemma_place(st, s, tail);
}

/// When another type is asked for than the one of the next value, the error tells both types.
pub proof fn law_wrong_type(st: State, tail: Seq<u8>, ty: ValueType)
    requires
        at_rest(st),
        shows(st, tail, ty),
    ensures
        ty != ValueType::Boolean ==> names_types(model::bool_run(st), st, tail, ValueType::Boolean, ty),
        ty != ValueType::Null ==> names_types(model::null_run(st), st, tail, ValueType::Null, ty),
        ty != ValueType::Number ==> names_types(
            model::number_run(st),
            st,
            tail,
            ValueType::Number,
            ty,
        ),
        ty != ValueType::String ==> names_types(
            model::string_run(st),
            st,
            tail,
            ValueType::String,
            ty,
        ),
        ty != ValueType::String ==> names_types(
            model::string_reader_run(st),
            st,
            tail,
            ValueType::String,
            ty,
        ),
        ty != ValueType::Array ==> names_types(
            model::begin_run(st, StackValue::Array),
            st,
            tail,
            ValueType::Array,
            ty,
        ),
        ty != ValueType::Object ==> names_types(
            model::begin_run(st, StackValue::Object),
            st,
            tail,
            ValueType::Object,
            ty,
        ),
{
}

/// Whether the outcome is the error for a value of another type than expected, which starts where
/// `at` does.
pub open spec fn names_types<T>(
    o: Outcome<T>,
    st: State,
    at: Seq<u8>,
    expected: ValueType,
    actual: ValueType,
) -> bool {
    o matches Outcome::Failed(e, _) && e == (ErrorModel::UnexpectedValueType {
        expected,
        actual,
        location: gaps::further(st, at).position(),
    })
}

/// A string is read piecewise from its first character on.
pub proof fn law_piecewise_start(st: State, before: Seq<Gap>, after: Seq<Gap>, content: Seq<u8>)
    requires
        at_rest(st),
        !st.expects_member_name,
        stands_before(st, before, after, seq![0x22u8] + content),
    ensures
        model::string_reader_run(st) == Outcome::Ready(
            (),
            State { string_reader_active: true, ..gaps::further(st, content) },
        ),
{
    let begun = lemma_string_begun(st, before, after, content);
    lemma_place(st, begun, content);
    assert(begun =~= gaps::further(st, content));
}

/// The position which is reported when the input has been consumed up to `tail`: the number of
/// line breaks, the number of characters behind the last one, and the number of bytes, each
/// counted from where the reader was.
pub proof fn law_reported_positions(st: State, consumed: Seq<u8>, tail: Seq<u8>)
    requires
        position::countable(st),
        st.peeked is None,
        st.rest == consumed + tail,
    ensures
        ({
            let reported = gaps::further(st, tail).position();
            let line = st.place.line + position::line_breaks(consumed);
            let column = if position::line_breaks(consumed) == 0 {
                st.place.column + position::char_count(consumed)
            } else {
                position::char_count(position::last_line(consumed)) as int
            };
            &&& reported.path == st.path
            &&& reported.line_pos matches Some(at) && at.line == line && at.column == column
            &&& reported.data_pos matches Some(at) && at == st.place.byte_pos + consumed.len()
        }),
{
    assert(st.rest.take(consumed.len() as int) =~= consumed);
    position::law_places(st.place, consumed);
}

/// A new reader stands at the start of the document: nothing has been consumed, and no array or
/// object has been entered.
pub proof fn law_start(settings: ReaderSettings, input: Seq<u8>, eof: bool)
    requires
        input.len() <= u64::MAX,
    ensures
        ({
            let st = model::extend(model::initial_state(settings), input, eof);
            let reported = st.position();
            &&& at_rest(st)
            &&& path_fits(st)
            &&& st.is_empty
            &&& !st.expects_member_name
            &&& st.stack.len() == 0
            &&& st.rest == input
            &&& st.eof == eof
            &&& st.settings == settings
            &&& reported.line_pos matches Some(at) && at.line == 0 && at.column == 0
            &&& reported.data_pos == Some(0u64)
            &&& reported.path matches Some(steps) ==> steps.len() == 0
            &&& reported.path is Some <==> settings.track_path
        }),
{
    assert(Seq::<u8>::empty() + input =~= input);
}

/// Which operations may be called where the reader stands between two operations. Names may be
/// read only where one is expected, and values only where none is. Whether there is a next
/// element can be asked in arrays and objects, but not for the value of a member; at top-level
/// only behind a value, and only where several are allowed. Behind the only top-level value
/// nothing can be read.
pub proof fn law_usage(st: State)
    requires
        at_rest(st),
    ensures
        ({
            let over = st.stack.len() == 0 && !st.is_empty && !st.settings.allow_multiple_top_level;
            let value = !st.expects_member_name && !over;
            let may = |operation: Operation| usage::misuse_of(st, operation) is None;
            &&& may(Operation::Peek) <==> value
            &&& may(Operation::ReadValue) <==> value
            &&& may(Operation::NextString) <==> value
            &&& may(Operation::NextNumber) <==> value
            &&& may(Operation::SkipValue) <==> value
            &&& may(Operation::NextName) <==> st.expects_member_name
            &&& may(Operation::SkipName) <==> st.expects_member_name
            &&& may(Operation::EndArray) <==> st.stack.len() > 0 && st.stack.last()
                == StackValue::Array
            &&& may(Operation::EndObject) <==> st.expects_member_name
            &&& may(Operation::HasNext) <==> !colon_due(st) && (st.stack.len() > 0 || !st.is_empty
                && st.settings.allow_multiple_top_level)
            &&& may(Operation::SkipToTopLevel)
            &&& may(Operation::ConsumeTrailingWhitespace) <==> st.stack.len() == 0 && !st.is_empty
        }),
{
}

/// While a string is read piecewise nothing else can be read.
pub proof fn law_usage_while_reading_a_string(st: State, operation: Operation)
    requires
        st.string_reader_active,
        st.task == Task::Idle,
        st.skip_depth is None,
    ensures
        usage::misuse_of(st, operation) is Some,
{
}

/// When the source fails, what has been received and not processed is given up together with the
/// operation which needed more input. The structure of the document which has been processed
/// stays.
pub proof fn law_source_error(st: State)
    requires
        model::valid(st),
        !st.eof,
        st.task == Task::Idle,
        !st.string_reader_active,
        st.place.byte_pos < u64::MAX,
    ensures
        ({
            let s = model::source_failed(st);
            let b = st.rest[0];
            let one_on = {
                ||| b == 0x2F && st.comment == CommentMode::Outside && st.settings.allow_comments
                ||| b == 0x2A && st.comment == CommentMode::Block
            };
            &&& s.rest.len() == 0
            &&& s == (State {
                place: s.place,
                comment: CommentMode::Outside,
                phase: PeekPhase::Start,
                skip_depth: None,
                task: Task::Idle,
                text: Seq::empty(),
                rest: Seq::empty(),
                ..st
            })
            &&& st.rest.len() != 1 ==> s.place == st.place
            &&& st.rest.len() == 1 && b == 0x0D && st.comment != CommentMode::Line ==> s.place.line
                == st.place.line + 1 && s.place.column == 0 && s.place.byte_pos
                == st.place.byte_pos + 1
            &&& st.rest.len() == 1 && one_on ==> s.place.line == st.place.line && s.place.column
                == st.place.column + 1 && s.place.byte_pos == st.place.byte_pos + 1
            &&& st.rest.len() == 1 && b != 0x0D && !one_on ==> s.place == st.place
        }),
{
}

/// The encoding of two texts.
proof fn lemma_encode_concat(a: Seq<char>, b: Seq<char>)
    ensures
        encode_utf8(a + b) == encode_utf8(a) + encode_utf8(b),
    decreases a.len(),
{
    let ab = a + b;
    if a.len() == 0 {
        assert(ab =~= b);
        assert(encode_utf8(a) + encode_utf8(b) =~= encode_utf8(b));
    } else {
        assert(ab[0] == a[0]);
        assert(ab.drop_first() =~= a.drop_first() + b);
        lemma_encode_concat(a.drop_first(), b);
        assert(encode_utf8(ab) =~= encode_utf8(a) + encode_utf8(b));
    }
}

/// The encoding of the first characters of a string.
pub open spec fn first_bytes(pieces: Seq<Spelled>, count: int) -> Seq<u8> {
    encode_utf8(spelling::meaning(pieces.take(count)))
}

proof fn lemma_first_bytes(pieces: Seq<Spelled>, count: int)
    requires
        0 <= count <= pieces.len(),
    ensures
        count == 0 ==> first_bytes(pieces, count) == Seq::<u8>::empty(),
        count > 0 ==> first_bytes(pieces, count) == encode_scalar(
            spelling::spelled_char(pieces[0]) as u32,
        ) + first_bytes(pieces.skip(1), count - 1),
{
    let text = spelling::meaning(pieces.take(count));
    if count > 0 {
        assert(text[0] == spelling::spelled_char(pieces[0]));
        assert(text.drop_first() =~= spelling::meaning(pieces.skip(1).take(count - 1)));
    } else {
        assert(text =~= Seq::<char>::empty());
    }
}

/// Characters are read one after the other until there are enough bytes. The result is the
/// number of characters.
#[verifier::spinoff_prover]
#[verifier::rlimit(40)]
proof fn lemma_pieces(
    st: State,
    pieces: Seq<Spelled>,
    behind: Seq<u8>,
    produced: Seq<u8>,
    want: nat,
) -> (count: int)
    requires
        position::countable(st),
        st.peeked is None,
        spelling::is_spelling(pieces),
        st.rest == spelling::spelling_bytes(pieces) + (seq![0x22u8] + behind),
    ensures
        0 <= count <= pieces.len(),
        model::pieces_run(st, produced, want) matches Outcome::Ready((bytes, reached_end), s) && {
            &&& bytes == produced + first_bytes(pieces, count)
            &&& reached_end ==> bytes.len() < want && count == pieces.len() && s.rest == behind
                && !s.string_reader_active
            &&& !reached_end ==> bytes.len() >= want && s.rest == spelling::spelling_bytes(
                pieces.skip(count),
            ) + (seq![0x22u8] + behind) && (st.string_reader_active ==> s.string_reader_active)
        },
    decreases pieces.len(),
{
    let close = seq![0x22u8] + behind;
    lemma_first_bytes(pieces, 0);
    if produced.len() >= want {
        assert(produced + first_bytes(pieces, 0) =~= produced);
        assert(pieces.skip(0) =~= pieces);
        0
    } else if pieces.len() == 0 {
        assert(st.rest =~= close);
        assert(st.rest[0] == 0x22);
        assert(st.rest.skip(1) =~= behind);
        assert(produced + first_bytes(pieces, 0) =~= produced);
        0
    } else {
        let piece = pieces[0];
        let others = pieces.skip(1);
        let tail = spelling::spelling_bytes(others) + close;
        spelling::lemma_first_spelled(pieces);
        assert(st.rest =~= spelling::spelled_bytes(piece) + tail);
        spelling::lemma_spelled_unit(piece, tail, st.eof);
        spelling::lemma_spelled_number(piece);
        let unit = text::text_unit(st.rest, st.eof);
        let next = st.moved(text::unit_len(unit), text::unit_columns(unit));
        assert(next.rest =~= tail);
        position::lemma_travel_text_unit(st, next);
        let one = encode_scalar(spelling::spelled_number(piece) as u32);
        let count = lemma_pieces(next, others, behind, produced + one, want);
        lemma_first_bytes(pieces, count + 1);
        assert(produced + one + first_bytes(others, count) =~= produced + first_bytes(
            pieces,
            count + 1,
        ));
        assert(others.skip(count) =~= pieces.skip(count + 1));
        count + 1
    }
}

/// Whether the input starts with these characters and the end of the string.
pub open spec fn remains(pieces: Seq<Spelled>, rest: Seq<u8>, behind: Seq<u8>) -> bool {
    rest == spelling::spelling_bytes(pieces) + (seq![0x22u8] + behind)
}

/// Reading a string piecewise fills the buffer of the caller with the bytes of the text which the
/// string stands for, in order and without a gap: what has been left over by the last read, and
/// then what follows. The buffer is filled completely unless the string ends before. What is then
/// left over and what follows is the remainder of the text, so that further reads go on with it.
#[verifier::spinoff_prover]
#[verifier::rlimit(40)]
pub proof fn law_read(
    before: StringReaderModel,
    json_before: State,
    buf_before: Seq<u8>,
    after: StringReaderModel,
    json_after: State,
    buf_after: Seq<u8>,
    count: usize,
    pieces: Seq<Spelled>,
    behind: Seq<u8>,
)
    requires
        position::countable(json_before),
        json_before.peeked is None,
        before.filled == 0,
        spelling::is_spelling(pieces),
        json_before.rest == spelling::spelling_bytes(pieces) + (seq![0x22u8] + behind),
        count <= buf_before.len(),
        string_reader::read_resolves(
            before,
            json_before,
            buf_before,
            after,
            json_after,
            buf_after,
            Ok(Step::Ready(count)),
        ),
    ensures
        ({
            let all = before.pending + encode_utf8(spelling::meaning(pieces));
            &&& count == if all.len() < buf_before.len() {
                all.len()
            } else {
                buf_before.len()
            }
            &&& buf_after.take(count as int) == all.take(count as int)
            &&& buf_after.skip(count as int) == buf_before.skip(count as int)
            &&& after.reached_end <==> all.len() < buf_before.len()
            &&& after.reached_end ==> json_after.rest == behind && after.pending.len() == 0
            &&& !after.reached_end ==> exists|k: int|
                0 <= k <= pieces.len() && #[trigger] remains(
                    pieces.skip(k),
                    json_after.rest,
                    behind,
                ) && after.pending + encode_utf8(spelling::meaning(pieces.skip(k))) == all.skip(
                    count as int,
                )
        }),
{
    let produced = string_reader::produced_bytes(before, buf_before);
    assert(produced =~= before.pending);
    let k = lemma_pieces(json_before, pieces, behind, produced, buf_before.len());
    lemma_all_bytes(before.pending, pieces, k, count as int);
    if !after.reached_end {
        assert(remains(pieces.skip(k), json_after.rest, behind));
    }
}

/// The bytes of the first characters are the first bytes.
proof fn lemma_all_bytes(pending: Seq<u8>, pieces: Seq<Spelled>, k: int, count: int)
    requires
        0 <= k <= pieces.len(),
    ensures
        ({
            let all = pending + encode_utf8(spelling::meaning(pieces));
            let bytes = pending + first_bytes(pieces, k);
            &&& bytes.len() <= all.len()
            &&& k == pieces.len() ==> bytes == all
            &&& 0 <= count <= bytes.len() ==> all.take(count) == bytes.take(count) && bytes.skip(
                count,
            ) + encode_utf8(spelling::meaning(pieces.skip(k))) == all.skip(count)
        }),
{
    let all = pending + encode_utf8(spelling::meaning(pieces));
    let bytes = pending + first_bytes(pieces, k);
    let first = spelling::meaning(pieces.take(k));
    let last = spelling::meaning(pieces.skip(k));
    assert(spelling::meaning(pieces) =~= first + last);
    lemma_encode_concat(first, last);
    assert(all =~= bytes + encode_utf8(last));
    if 0 <= count <= bytes.len() {
        assert(all.take(count) =~= bytes.take(count));
        assert(bytes.skip(count) + encode_utf8(last) =~= all.skip(count));
    }
    if k == pieces.len() {
        assert(pieces.take(k) =~= pieces);
    }
}

} // verus!
