//! Operations do not depend on how the input is split into chunks.
//!
//! Once the available input decides an operation, the outcome stays the same whatever input
//! follows. What the operation has not looked at is left for the operations behind it.

use vstd::prelude::*;

use crate::model;
use crate::model::{Outcome, PeekPhase, State, Task};
use crate::number;
use crate::space;
use crate::space::{CommentMode, SpaceUnit};
use crate::text;
use crate::text::TextUnit;
use crate::token;
use crate::token::TokenUnit;
use crate::types::{PeekedValue, StackValue, ValueType};

verus! {

/// Whether the outcome belongs to a state in which the end of the input is known (`eof`) or
/// not.
pub open spec fn same_eof<T>(o: Outcome<T>, eof: bool) -> bool {
    match o {
        Outcome::NeedMore(s) => !eof && !s.eof,
        Outcome::Ready(_, s) => s.eof == eof,
        Outcome::Failed(_, s) => s.eof == eof,
    }
}

/// Whether the outcome of an operation on `st` is `o`, and stays the same when `more` input
/// arrives: `extended` is the outcome of the operation then.
pub open spec fn stable<T>(
    o: Outcome<T>,
    extended: Outcome<T>,
    st: State,
    more: Seq<u8>,
    eof: bool,
) -> bool {
    &&& same_eof(o, st.eof)
    &&& !(o is NeedMore) ==> extended == model::extend_outcome(o, more, eof)
}

/// Consuming input commutes with the arrival of input behind it.
proof fn lemma_skip_extend(rest: Seq<u8>, more: Seq<u8>, n: int)
    requires
        0 <= n <= rest.len(),
    ensures
        (rest + more).skip(n) == rest.skip(n) + more,
        (rest + more).take(n) == rest.take(n),
        n < rest.len() ==> (rest + more)[n] == rest[n],
{
    assert((rest + more).skip(n) =~= rest.skip(n) + more);
    assert((rest + more).take(n) =~= rest.take(n));
}

/// A piece of whitespace or comment is skipped the same way when more input arrives.
pub proof fn lemma_space_step(st: State, more: Seq<u8>, eof: bool)
    ensures
        model::space_here(st) matches SpaceUnit::Move { len, columns, line_break, mode }
            ==> model::space_run(model::extend(st, more, eof)) == model::space_run(
            model::extend(model::space_moved(st, len, columns, line_break, mode), more, eof),
        ),
{
    if let SpaceUnit::Move { len, columns, line_break, mode } = model::space_here(st) {
        space::lemma_space_unit(st.comment, st.settings.allow_comments, st.rest, st.eof);
        if !st.eof {
            space::lemma_space_stable(st.comment, st.settings.allow_comments, st.rest, more, eof);
            lemma_skip_extend(st.rest, more, len as int);
            let next = model::extend(
                model::space_moved(st, len, columns, line_break, mode),
                more,
                eof,
            );
            assert(next =~= model::space_moved(
                model::extend(st, more, eof),
                len,
                columns,
                line_break,
                mode,
            ));
        }
    }
}

/// Skipping whitespace and comments.
pub proof fn law_space(st: State, more: Seq<u8>, eof: bool)
    ensures
        stable(
            model::space_run(st),
            model::space_run(model::extend(st, more, eof)),
            st,
            more,
            eof,
        ),
    decreases
            st.rest.len(),
            if st.comment == CommentMode::Line {
                1int
            } else {
                0int
            },
{
    space::lemma_space_unit(st.comment, st.settings.allow_comments, st.rest, st.eof);
    let unit = model::space_here(st);
    if !st.eof && !(unit is Incomplete) {
        space::lemma_space_stable(st.comment, st.settings.allow_comments, st.rest, more, eof);
    }
    match unit {
        SpaceUnit::Move { len, columns, line_break, mode } => {
            lemma_space_step(st, more, eof);
            law_space(model::space_moved(st, len, columns, line_break, mode), more, eof);
        },
        SpaceUnit::Fault { fault, ahead } => {
            space::lemma_fault_len(st.comment, st.settings.allow_comments, st.rest, st.eof);
            space::lemma_malformed_stable(
                st.comment,
                st.settings.allow_comments,
                st.rest,
                more,
                0,
            );
            lemma_skip_extend(
                st.rest,
                more,
                space::fault_len(st.comment, st.settings.allow_comments, st.rest, fault),
            );
        },
        _ => {},
    }
}

proof fn lemma_colon(st: State, more: Seq<u8>, eof: bool)
    ensures
        stable(
            model::colon_run(st),
            model::colon_run(model::extend(st, more, eof)),
            st,
            more,
            eof,
        ),
{
    law_space(st, more, eof);
    model::lemma_space_work(st);
    if let Outcome::Ready(byte, s) = model::space_run(st) {
        if byte is Some {
            lemma_skip_extend(s.rest, more, 1);
        }
    }
}

proof fn lemma_behind_comma(st: State, more: Seq<u8>, eof: bool)
    ensures
        stable(
            model::behind_comma_run(st),
            model::behind_comma_run(model::extend(st, more, eof)),
            st,
            more,
            eof,
        ),
        model::behind_comma_run(st) matches Outcome::Ready(found, s) ==> found && s.rest.len() > 0,
{
    law_space(st, more, eof);
    model::lemma_space_work(st);
}

proof fn lemma_comma(st: State, more: Seq<u8>, eof: bool)
    ensures
        stable(
            model::comma_run(st),
            model::comma_run(model::extend(st, more, eof)),
            st,
            more,
            eof,
        ),
        model::comma_run(st) matches Outcome::Ready(true, s) ==> s.rest.len() > 0,
{
    lemma_behind_comma(st, more, eof);
    law_space(st, more, eof);
    model::lemma_space_work(st);
    if let Outcome::Ready(byte, s) = model::space_run(st) {
        if byte is Some {
            lemma_skip_extend(s.rest, more, 1);
            let s2 = State { phase: PeekPhase::Comma(s.place), ..s.moved(1, 1) };
            lemma_behind_comma(s2, more, eof);
        }
    }
}

/// Looking for the token behind a comma can be taken up again there.
pub proof fn lemma_behind_first_comma(st: State, found: State, more: Seq<u8>, eof: bool)
    requires
        !(st.phase is Comma),
        found.rest.len() > 0,
        found.rest[0] == 0x2C,
        model::space_run(st) == Outcome::Ready(Some(0x2Cu8), found),
        found.can_have_comma(),
    ensures
        ({
            let behind = State { phase: PeekPhase::Comma(found.place), ..found.moved(1, 1) };
            model::comma_run(model::extend(st, more, eof)) == model::comma_run(
                model::extend(behind, more, eof),
            )
        }),
{
    law_space(st, more, eof);
    lemma_skip_extend(found.rest, more, 1);
    lemma_skip_extend(found.rest, more, 0);
}

/// Where the token behind a comma has been found, looking for it again finds the same.
pub proof fn lemma_comma_again(st: State)
    requires
        model::space_here(st) is Stop,
        st.phase is Comma || st.rest[0] != 0x2C,
    ensures
        model::comma_run(st) == Outcome::Ready(true, st),
{
}

/// The colon behind a member name is not looked for again.
pub proof fn lemma_colon_again(st: State)
    requires
        st.phase != PeekPhase::Start || !st.expects_member_value(),
    ensures
        model::colon_run(st) == Outcome::Ready((), st),
{
}

/// Looking for the next token can be taken up again behind the colon.
proof fn lemma_peek_behind_colon(st: State, s: State, more: Seq<u8>, eof: bool)
    requires
        st.peeked is None,
        s.peeked is None,
        model::colon_run(st) == Outcome::Ready((), s),
        s.phase != PeekPhase::Start || !s.expects_member_value(),
    ensures
        model::peek_run(model::extend(st, more, eof)) == model::peek_run(
            model::extend(s, more, eof),
        ),
        model::peek_run(st) == model::peek_run(s),
{
    lemma_colon(st, more, eof);
    lemma_colon_again(s);
    lemma_colon_again(model::extend(s, more, eof));
}

/// Looking for the next token can be taken up again behind the comma.
proof fn lemma_peek_behind_comma(st: State, s: State, more: Seq<u8>, eof: bool)
    requires
        st.peeked is None,
        s.peeked is None,
        st.phase != PeekPhase::Start || !st.expects_member_value(),
        s.phase != PeekPhase::Start || !s.expects_member_value(),
        model::comma_run(st) == Outcome::Ready(true, s),
        model::space_here(s) is Stop,
        s.phase is Comma || s.rest[0] != 0x2C,
    ensures
        model::peek_run(model::extend(st, more, eof)) == model::peek_run(
            model::extend(s, more, eof),
        ),
        model::peek_run(st) == model::token_run(s),
{
    lemma_comma(st, more, eof);
    lemma_colon_again(st);
    lemma_colon_again(model::extend(st, more, eof));
    lemma_colon_again(model::extend(s, more, eof));
    space::lemma_space_unit(s.comment, s.settings.allow_comments, s.rest, s.eof);
    if !s.eof {
        space::lemma_space_stable(s.comment, s.settings.allow_comments, s.rest, more, eof);
    }
    lemma_comma_again(model::extend(s, more, eof));
}

proof fn lemma_token(st: State, more: Seq<u8>, eof: bool)
    requires
        st.rest.len() > 0,
    ensures
        stable(
            model::token_run(st),
            model::token_run(model::extend(st, more, eof)),
            st,
            more,
            eof,
        ),
{
    token::lemma_token_unit(st.expects_member_name, st.in_array(), st.rest, st.eof);
    let unit = token::token_unit(st.expects_member_name, st.in_array(), st.rest, st.eof);
    if !st.eof && !(unit is Incomplete) {
        token::lemma_token_stable(st.expects_member_name, st.in_array(), st.rest, more, eof);
    }
    match unit {
        TokenUnit::Token { value, len } => {
            lemma_skip_extend(st.rest, more, len as int);
            lemma_skip_extend(st.rest, more, token::literal_len(value));
        },
        TokenUnit::Fault(kind) => {
            token::lemma_malformed_stable(
                st.expects_member_name,
                st.in_array(),
                st.rest,
                more,
                1,
            );
            lemma_skip_extend(
                st.rest,
                more,
                token::fault_len(st.expects_member_name, st.in_array(), st.rest, kind),
            );
        },
        TokenUnit::Incomplete => {},
    }
}

/// An operation can be taken up again any number of times.
pub proof fn lemma_continues_trans<T>(
    run: spec_fn(State) -> Outcome<T>,
    a: State,
    b: State,
    c: State,
)
    requires
        model::continues(run, a, b),
        model::continues(run, b, c),
    ensures
        model::continues(run, a, c),
{
    assert forall|more: Seq<u8>, eof: bool|
        run(#[trigger] model::extend(a, more, eof)) == run(model::extend(c, more, eof)) by {
        assert(run(model::extend(a, more, eof)) == run(model::extend(b, more, eof)));
        assert(run(model::extend(b, more, eof)) == run(model::extend(c, more, eof)));
    }
}

/// Looking for the next token can be taken up again while the colon is looked for.
pub proof fn lemma_peek_continues_colon(a: State, b: State)
    requires
        a.peeked is None,
        b.peeked is None,
        model::continues(|s: State| model::colon_run(s), a, b),
    ensures
        model::continues(|s: State| model::peek_run(s), a, b),
{
    let run = |s: State| model::colon_run(s);
    assert forall|more: Seq<u8>, eof: bool|
        model::peek_run(#[trigger] model::extend(a, more, eof)) == model::peek_run(
            model::extend(b, more, eof),
        ) by {
        assert(run(model::extend(a, more, eof)) == run(model::extend(b, more, eof)));
    }
}

/// Looking for the next token can be taken up again behind the colon.
pub proof fn lemma_peek_continues_behind_colon(a: State, b: State)
    requires
        a.peeked is None,
        b.peeked is None,
        model::colon_run(a) == Outcome::Ready((), b),
        b.phase != PeekPhase::Start || !b.expects_member_value(),
    ensures
        model::continues(|s: State| model::peek_run(s), a, b),
        model::peek_run(a) == model::peek_run(b),
{
    lemma_peek_behind_colon(a, b, Seq::empty(), false);
    assert forall|more: Seq<u8>, eof: bool|
        model::peek_run(#[trigger] model::extend(a, more, eof)) == model::peek_run(
            model::extend(b, more, eof),
        ) by {
        lemma_peek_behind_colon(a, b, more, eof);
    }
}

/// Looking for the next token can be taken up again while the comma is looked for.
pub proof fn lemma_peek_continues_comma(a: State, b: State)
    requires
        a.peeked is None,
        b.peeked is None,
        a.phase != PeekPhase::Start || !a.expects_member_value(),
        b.phase != PeekPhase::Start || !b.expects_member_value(),
        model::continues(|s: State| model::comma_run(s), a, b),
    ensures
        model::continues(|s: State| model::peek_run(s), a, b),
{
    let run = |s: State| model::comma_run(s);
    assert forall|more: Seq<u8>, eof: bool|
        model::peek_run(#[trigger] model::extend(a, more, eof)) == model::peek_run(
            model::extend(b, more, eof),
        ) by {
        assert(run(model::extend(a, more, eof)) == run(model::extend(b, more, eof)));
        lemma_colon_again(model::extend(a, more, eof));
        lemma_colon_again(model::extend(b, more, eof));
    }
}

/// Looking for the next token can be taken up again behind the comma.
pub proof fn lemma_peek_continues_behind_comma(a: State, b: State)
    requires
        a.peeked is None,
        b.peeked is None,
        a.phase != PeekPhase::Start || !a.expects_member_value(),
        b.phase != PeekPhase::Start || !b.expects_member_value(),
        model::comma_run(a) == Outcome::Ready(true, b),
        model::space_here(b) is Stop,
        b.phase is Comma || b.rest[0] != 0x2C,
    ensures
        model::continues(|s: State| model::peek_run(s), a, b),
        model::peek_run(a) == model::token_run(b),
{
    lemma_peek_behind_comma(a, b, Seq::empty(), false);
    assert forall|more: Seq<u8>, eof: bool|
        model::peek_run(#[trigger] model::extend(a, more, eof)) == model::peek_run(
            model::extend(b, more, eof),
        ) by {
        lemma_peek_behind_comma(a, b, more, eof);
    }
}

/// Recognizing the next token.
pub proof fn law_peek(st: State, more: Seq<u8>, eof: bool)
    ensures
        stable(
            model::peek_run(st),
            model::peek_run(model::extend(st, more, eof)),
            st,
            more,
            eof,
        ),
        stable(
            model::token_ahead_run(st),
            model::token_ahead_run(model::extend(st, more, eof)),
            st,
            more,
            eof,
        ),
        stable(
            model::type_ahead_run(st),
            model::type_ahead_run(model::extend(st, more, eof)),
            st,
            more,
            eof,
        ),
{
    lemma_colon(st, more, eof);
    if let Outcome::Ready(_, s) = model::colon_run(st) {
        lemma_comma(s, more, eof);
        if let Outcome::Ready(true, s2) = model::comma_run(s) {
            lemma_token(s2, more, eof);
        }
    }
}

/// Starting a value.
pub proof fn law_expect(
    st: State,
    expected: ValueType,
    check_depth: bool,
    more: Seq<u8>,
    eof: bool,
)
    ensures
        stable(
            model::expect_run(st, expected, check_depth),
            model::expect_run(model::extend(st, more, eof), expected, check_depth),
            st,
            more,
            eof,
        ),
{
    law_peek(st, more, eof);
}

/// Entering and leaving arrays and objects.
pub proof fn law_containers(st: State, kind: StackValue, more: Seq<u8>, eof: bool)
    ensures
        stable(
            model::begin_run(st, kind),
            model::begin_run(model::extend(st, more, eof), kind),
            st,
            more,
            eof,
        ),
        stable(
            model::end_run(st),
            model::end_run(model::extend(st, more, eof)),
            st,
            more,
            eof,
        ),
        stable(
            model::has_next_run(st),
            model::has_next_run(model::extend(st, more, eof)),
            st,
            more,
            eof,
        ),
{
    law_peek(st, more, eof);
    law_expect(st, ValueType::Array, true, more, eof);
    law_expect(st, ValueType::Object, true, more, eof);
}

/// Reading literals.
pub proof fn law_literals(st: State, more: Seq<u8>, eof: bool)
    ensures
        stable(
            model::bool_run(st),
            model::bool_run(model::extend(st, more, eof)),
            st,
            more,
            eof,
        ),
        stable(
            model::null_run(st),
            model::null_run(model::extend(st, more, eof)),
            st,
            more,
            eof,
        ),
{
    law_expect(st, ValueType::Boolean, false, more, eof);
    law_expect(st, ValueType::Null, false, more, eof);
}

/// Inside an array or object, the end of the input is reported as if a token was needed.
pub proof fn lemma_has_next_failed(st: State)
    ensures
        st.stack.len() > 0 ==> (model::token_ahead_run(st) matches Outcome::Failed(e, s)
            ==> model::has_next_run(st) == Outcome::<bool>::Failed(e, s)),
{
    lemma_peek_frame(st);
}

/// Whether an element follows can be asked again when it can be looked for again.
pub proof fn lemma_has_next_continues(a: State, b: State)
    requires
        a.stack.len() > 0,
        b.stack == a.stack,
        model::continues(|s: State| model::token_ahead_run(s), a, b),
    ensures
        model::continues(|s: State| model::has_next_run(s), a, b),
{
    let run = |s: State| model::token_ahead_run(s);
    assert forall|more: Seq<u8>, eof: bool|
        model::has_next_run(#[trigger] model::extend(a, more, eof)) == model::has_next_run(
            model::extend(b, more, eof),
        ) by {
        let x = model::extend(a, more, eof);
        let y = model::extend(b, more, eof);
        assert(run(x) == run(y));
        lemma_has_next_failed(x);
        lemma_has_next_failed(y);
        lemma_peek_frame(x);
        lemma_peek_frame(y);
    }
}

/// Looking for the next token changes neither the arrays and objects which have been entered
/// nor the settings.
pub proof fn lemma_peek_frame(st: State)
    ensures
        model::peek_run(st) matches Outcome::Ready(p, s) ==> s.stack == st.stack && s.peeked == p
            && s.settings == st.settings && s.is_empty == st.is_empty,
{
    model::lemma_peek_work(st);
    if st.peeked is None {
        model::lemma_space_work(st);
        if let Outcome::Ready(_, s) = model::colon_run(st) {
            model::lemma_space_work(s);
            if let Outcome::Ready(Some(byte), s1) = model::space_run(s) {
                model::lemma_space_work(
                    State { phase: PeekPhase::Comma(s1.place), ..s1.moved(1, 1) },
                );
            }
        }
    }
}

/// A character or escape sequence of a string is read the same way when more input arrives.
pub proof fn lemma_text_step(st: State, more: Seq<u8>, eof: bool)
    ensures
        ({
            let unit = text::text_unit(st.rest, st.eof);
            unit is Raw || unit is Escape ==> model::text_run(model::extend(st, more, eof))
                == model::text_run(model::extend(model::text_moved(st, unit), more, eof))
        }),
        ({
            let unit = text::text_unit(st.rest, st.eof);
            unit is Raw || unit is Escape ==> model::extend(
                model::text_moved(st, unit),
                more,
                eof,
            ) == model::text_moved(model::extend(st, more, eof), unit)
        }),
        !(text::text_unit(st.rest, st.eof) is Incomplete) ==> text::text_unit(
            model::extend(st, more, eof).rest,
            model::extend(st, more, eof).eof,
        ) == text::text_unit(st.rest, st.eof),
{
    let unit = text::text_unit(st.rest, st.eof);
    text::lemma_text_unit(st.rest, st.eof);
    if !(unit is Incomplete) {
        if !st.eof {
            text::lemma_text_stable(st.rest, more, eof);
        }
        if unit is Raw || unit is Escape {
            lemma_skip_extend(st.rest, more, text::unit_len(unit));
            assert(model::extend(model::text_moved(st, unit), more, eof) =~= model::text_moved(
                model::extend(st, more, eof),
                unit,
            ));
        }
    }
}

/// The malformed content of a string or member name is the same when more input arrives.
proof fn lemma_malformed(st: State, more: Seq<u8>, eof: bool)
    requires
        text::text_unit(st.rest, st.eof) is Fault,
    ensures
        model::extend(
            State { rest: st.rest.skip(text::malformed_len(st.rest, 0)), ..st },
            more,
            eof,
        ).rest == model::extend(st, more, eof).rest.skip(
            text::malformed_len(model::extend(st, more, eof).rest, 0),
        ),
{
    text::lemma_malformed_stable(st.rest, more, 0);
    lemma_skip_extend(st.rest, more, text::malformed_len(st.rest, 0));
}

/// Reading the content of a string or member name.
pub proof fn law_text(st: State, more: Seq<u8>, eof: bool)
    ensures
        stable(
            model::text_run(st),
            model::text_run(model::extend(st, more, eof)),
            st,
            more,
            eof,
        ),
    decreases st.rest.len(),
{
    let unit = text::text_unit(st.rest, st.eof);
    text::lemma_text_unit(st.rest, st.eof);
    lemma_text_step(st, more, eof);
    match unit {
        TextUnit::Raw(_) => {
            law_text(model::text_moved(st, unit), more, eof);
        },
        TextUnit::Escape { .. } => {
            law_text(model::text_moved(st, unit), more, eof);
        },
        TextUnit::End => {
            lemma_skip_extend(st.rest, more, 1);
        },
        TextUnit::Fault(_) => {
            lemma_malformed(st, more, eof);
        },
        TextUnit::Incomplete => {},
    }
}

/// Reading member names.
pub proof fn law_names(st: State, task: Task, more: Seq<u8>, eof: bool)
    ensures
        stable(
            model::before_name_run(st, task),
            model::before_name_run(model::extend(st, more, eof), task),
            st,
            more,
            eof,
        ),
        stable(
            model::name_rest_run(st),
            model::name_rest_run(model::extend(st, more, eof)),
            st,
            more,
            eof,
        ),
        stable(
            model::name_run(st, task),
            model::name_run(model::extend(st, more, eof), task),
            st,
            more,
            eof,
        ),
{
    law_containers(st, StackValue::Object, more, eof);
    law_text(st, more, eof);
    if let Outcome::Ready(_, s) = model::before_name_run(st, task) {
        law_text(s, more, eof);
    }
}

/// Reading a member name can be taken up again behind its opening `"`.
pub proof fn lemma_name_continues_begun(a: State, b: State, task: Task)
    requires
        a.task != task,
        b.task == task,
        model::before_name_run(a, task) == Outcome::Ready((), b),
    ensures
        model::continues(|s: State| model::name_run(s, task), a, b),
        model::name_run(a, task) == model::name_rest_run(b),
{
    assert forall|more: Seq<u8>, eof: bool|
        model::name_run(#[trigger] model::extend(a, more, eof), task) == model::name_run(
            model::extend(b, more, eof),
            task,
        ) by {
        law_names(a, task, more, eof);
    }
}

/// Reading a member name can be taken up again while its opening `"` is looked for.
pub proof fn lemma_name_continues_before(a: State, b: State, task: Task)
    requires
        a.task != task,
        b.task != task,
        model::continues(|s: State| model::before_name_run(s, task), a, b),
    ensures
        model::continues(|s: State| model::name_run(s, task), a, b),
{
    let run = |s: State| model::before_name_run(s, task);
    assert forall|more: Seq<u8>, eof: bool|
        model::name_run(#[trigger] model::extend(a, more, eof), task) == model::name_run(
            model::extend(b, more, eof),
            task,
        ) by {
        assert(run(model::extend(a, more, eof)) == run(model::extend(b, more, eof)));
    }
}

/// Reading a member name can be taken up again inside its content.
pub proof fn lemma_name_continues_text(a: State, b: State, task: Task)
    requires
        a.task == task,
        b.task == task,
        model::continues(|s: State| model::text_run(s), a, b),
    ensures
        model::continues(|s: State| model::name_run(s, task), a, b),
{
    let run = |s: State| model::text_run(s);
    assert forall|more: Seq<u8>, eof: bool|
        model::name_run(#[trigger] model::extend(a, more, eof), task) == model::name_run(
            model::extend(b, more, eof),
            task,
        ) by {
        assert(run(model::extend(a, more, eof)) == run(model::extend(b, more, eof)));
    }
}

/// Reading strings.
pub proof fn law_strings(st: State, more: Seq<u8>, eof: bool)
    ensures
        stable(
            model::string_rest_run(st),
            model::string_rest_run(model::extend(st, more, eof)),
            st,
            more,
            eof,
        ),
        stable(
            model::string_run(st),
            model::string_run(model::extend(st, more, eof)),
            st,
            more,
            eof,
        ),
        stable(
            model::string_reader_run(st),
            model::string_reader_run(model::extend(st, more, eof)),
            st,
            more,
            eof,
        ),
{
    law_expect(st, ValueType::String, false, more, eof);
    law_text(st, more, eof);
    if let Outcome::Ready(_, s) = model::expect_run(st, ValueType::String, false) {
        law_text(State { task: Task::Text, text: Seq::empty(), ..s }, more, eof);
    }
}

/// Reading a string can be taken up again behind its opening `"`.
pub proof fn lemma_string_continues_begun(a: State, b: State)
    requires
        a.task != Task::Text,
        model::expect_run(a, ValueType::String, false) matches Outcome::Ready(_, s) && b == (State {
            task: Task::Text,
            text: Seq::empty(),
            ..s
        }),
    ensures
        model::continues(|s: State| model::string_run(s), a, b),
        model::string_run(a) == model::string_rest_run(b),
{
    assert forall|more: Seq<u8>, eof: bool|
        model::string_run(#[trigger] model::extend(a, more, eof)) == model::string_run(
            model::extend(b, more, eof),
        ) by {
        law_expect(a, ValueType::String, false, more, eof);
    }
}

/// Reading a string can be taken up again while its opening `"` is looked for.
pub proof fn lemma_string_continues_before(a: State, b: State)
    requires
        a.task != Task::Text,
        b.task != Task::Text,
        model::continues(|s: State| model::expect_run(s, ValueType::String, false), a, b),
    ensures
        model::continues(|s: State| model::string_run(s), a, b),
{
    let run = |s: State| model::expect_run(s, ValueType::String, false);
    assert forall|more: Seq<u8>, eof: bool|
        model::string_run(#[trigger] model::extend(a, more, eof)) == model::string_run(
            model::extend(b, more, eof),
        ) by {
        assert(run(model::extend(a, more, eof)) == run(model::extend(b, more, eof)));
    }
}

/// Reading a string can be taken up again inside its content.
pub proof fn lemma_string_continues_text(a: State, b: State)
    requires
        a.task == Task::Text,
        b.task == Task::Text,
        model::continues(|s: State| model::text_run(s), a, b),
    ensures
        model::continues(|s: State| model::string_run(s), a, b),
{
    let run = |s: State| model::text_run(s);
    assert forall|more: Seq<u8>, eof: bool|
        model::string_run(#[trigger] model::extend(a, more, eof)) == model::string_run(
            model::extend(b, more, eof),
        ) by {
        assert(run(model::extend(a, more, eof)) == run(model::extend(b, more, eof)));
    }
}

/// A byte of a number is read the same way when more input arrives.
pub proof fn lemma_number_step(st: State, more: Seq<u8>, eof: bool)
    ensures
        st.rest.len() > 0 && number::number_next(
            model::number_scan(st.task),
            st.rest[0],
        ) is Some ==> model::number_rest_run(model::extend(st, more, eof)) == model::number_rest_run(
            model::extend(
                model::number_moved(
                    st,
                    number::number_next(model::number_scan(st.task), st.rest[0])->0,
                ),
                more,
                eof,
            ),
        ),
{
    if st.rest.len() > 0 {
        if let Some(scan) = number::number_next(model::number_scan(st.task), st.rest[0]) {
            lemma_skip_extend(st.rest, more, 1);
            lemma_skip_extend(st.rest, more, 0);
            assert(model::extend(model::number_moved(st, scan), more, eof)
                =~= model::number_moved(model::extend(st, more, eof), scan));
        }
    }
}

/// Reading the characters of a number.
pub proof fn law_number_rest(st: State, more: Seq<u8>, eof: bool)
    ensures
        stable(
            model::number_rest_run(st),
            model::number_rest_run(model::extend(st, more, eof)),
            st,
            more,
            eof,
        ),
    decreases st.rest.len(),
{
    if st.rest.len() > 0 {
        lemma_skip_extend(st.rest, more, 0);
        match number::number_next(model::number_scan(st.task), st.rest[0]) {
            Some(scan) => {
                lemma_number_step(st, more, eof);
                law_number_rest(model::number_moved(st, scan), more, eof);
            },
            None => {},
        }
    }
}

/// Reading numbers.
pub proof fn law_numbers(st: State, more: Seq<u8>, eof: bool)
    ensures
        stable(
            model::number_value_run(st),
            model::number_value_run(model::extend(st, more, eof)),
            st,
            more,
            eof,
        ),
        stable(
            model::number_run(st),
            model::number_run(model::extend(st, more, eof)),
            st,
            more,
            eof,
        ),
{
    law_number_rest(st, more, eof);
    law_expect(st, ValueType::Number, false, more, eof);
    if let Outcome::Ready(_, s) = model::expect_run(st, ValueType::Number, false) {
        law_number_rest(
            State { task: Task::Number(number::number_start()), text: Seq::empty(), ..s },
            more,
            eof,
        );
    }
}

/// Reading a number can be taken up again in front of its first character.
pub proof fn lemma_number_continues_begun(a: State, b: State)
    requires
        !(a.task is Number),
        model::expect_run(a, ValueType::Number, false) matches Outcome::Ready(_, s) && b == (State {
            task: Task::Number(number::number_start()),
            text: Seq::empty(),
            ..s
        }),
    ensures
        model::continues(|s: State| model::number_run(s), a, b),
        model::number_run(a) == model::number_value_run(b),
{
    assert forall|more: Seq<u8>, eof: bool|
        model::number_run(#[trigger] model::extend(a, more, eof)) == model::number_run(
            model::extend(b, more, eof),
        ) by {
        law_expect(a, ValueType::Number, false, more, eof);
    }
}

/// Reading a number can be taken up again while it is looked for.
pub proof fn lemma_number_continues_before(a: State, b: State)
    requires
        !(a.task is Number),
        !(b.task is Number),
        model::continues(|s: State| model::expect_run(s, ValueType::Number, false), a, b),
    ensures
        model::continues(|s: State| model::number_run(s), a, b),
{
    let run = |s: State| model::expect_run(s, ValueType::Number, false);
    assert forall|more: Seq<u8>, eof: bool|
        model::number_run(#[trigger] model::extend(a, more, eof)) == model::number_run(
            model::extend(b, more, eof),
        ) by {
        assert(run(model::extend(a, more, eof)) == run(model::extend(b, more, eof)));
    }
}

/// Reading a number can be taken up again between its characters.
pub proof fn lemma_number_continues_rest(a: State, b: State)
    requires
        a.task is Number,
        b.task is Number,
        model::continues(|s: State| model::number_rest_run(s), a, b),
    ensures
        model::continues(|s: State| model::number_run(s), a, b),
{
    let run = |s: State| model::number_rest_run(s);
    assert forall|more: Seq<u8>, eof: bool|
        model::number_run(#[trigger] model::extend(a, more, eof)) == model::number_run(
            model::extend(b, more, eof),
        ) by {
        assert(run(model::extend(a, more, eof)) == run(model::extend(b, more, eof)));
    }
}

proof fn lemma_skip_number(st: State, more: Seq<u8>, eof: bool)
    ensures
        stable(
            model::skip_number_run(st),
            model::skip_number_run(model::extend(st, more, eof)),
            st,
            more,
            eof,
        ),
{
    law_number_rest(st, more, eof);
}

proof fn lemma_skip_token(p: PeekedValue, st: State, more: Seq<u8>, eof: bool)
    ensures
        stable(
            model::skip_token_run(p, st),
            model::skip_token_run(p, model::extend(st, more, eof)),
            st,
            more,
            eof,
        ),
{
    if p == PeekedValue::NumberStart {
        lemma_skip_number(
            State {
                task: Task::SkipNumber(number::number_start()),
                text: Seq::empty(),
                ..model::consume_token(st)
            },
            more,
            eof,
        );
    }
}

pub proof fn lemma_skip_step(st: State, more: Seq<u8>, eof: bool)
    ensures
        stable(
            model::skip_step_run(st),
            model::skip_step_run(model::extend(st, more, eof)),
            st,
            more,
            eof,
        ),
{
    match st.task {
        Task::SkipName => {
            law_text(st, more, eof);
        },
        Task::SkipText => {
            law_text(st, more, eof);
        },
        Task::SkipNumber(_) => {
            lemma_skip_number(st, more, eof);
        },
        _ => {
            law_peek(st, more, eof);
            if let Outcome::Ready(p, s) = model::token_ahead_run(st) {
                lemma_skip_token(p, s, more, eof);
            }
        },
    }
}

/// Skipping can be taken up again inside a name or string.
pub proof fn lemma_skip_step_continues_text(a: State, b: State)
    requires
        a.task == Task::SkipName || a.task == Task::SkipText,
        b.task == a.task,
        model::continues(|s: State| model::text_run(s), a, b),
    ensures
        model::continues(|s: State| model::skip_step_run(s), a, b),
{
    let run = |s: State| model::text_run(s);
    assert forall|more: Seq<u8>, eof: bool|
        model::skip_step_run(#[trigger] model::extend(a, more, eof)) == model::skip_step_run(
            model::extend(b, more, eof),
        ) by {
        assert(run(model::extend(a, more, eof)) == run(model::extend(b, more, eof)));
    }
}

/// Skipping can be taken up again inside a number.
pub proof fn lemma_skip_step_continues_number(a: State, b: State)
    requires
        a.task is SkipNumber,
        b.task is SkipNumber,
        model::continues(|s: State| model::number_rest_run(s), a, b),
    ensures
        model::continues(|s: State| model::skip_step_run(s), a, b),
{
    let run = |s: State| model::number_rest_run(s);
    assert forall|more: Seq<u8>, eof: bool|
        model::skip_step_run(#[trigger] model::extend(a, more, eof)) == model::skip_step_run(
            model::extend(b, more, eof),
        ) by {
        assert(run(model::extend(a, more, eof)) == run(model::extend(b, more, eof)));
    }
}

/// Skipping can be taken up again while the next token is looked for.
pub proof fn lemma_skip_step_continues_token(a: State, b: State)
    requires
        a.task == Task::Idle,
        b.task == Task::Idle,
        model::continues(|s: State| model::token_ahead_run(s), a, b),
    ensures
        model::continues(|s: State| model::skip_step_run(s), a, b),
{
    let run = |s: State| model::token_ahead_run(s);
    assert forall|more: Seq<u8>, eof: bool|
        model::skip_step_run(#[trigger] model::extend(a, more, eof)) == model::skip_step_run(
            model::extend(b, more, eof),
        ) by {
        assert(run(model::extend(a, more, eof)) == run(model::extend(b, more, eof)));
    }
}

/// Skipping a number can be taken up again in front of its first character.
pub proof fn lemma_skip_step_continues_begun(a: State, b: State)
    requires
        a.task == Task::Idle,
        model::token_ahead_run(a) matches Outcome::Ready(p, s) && p == PeekedValue::NumberStart && b
            == (State {
            task: Task::SkipNumber(number::number_start()),
            text: Seq::empty(),
            ..model::consume_token(s)
        }),
    ensures
        model::continues(|s: State| model::skip_step_run(s), a, b),
        model::skip_step_run(a) == model::skip_step_run(b),
{
    assert forall|more: Seq<u8>, eof: bool|
        model::skip_step_run(#[trigger] model::extend(a, more, eof)) == model::skip_step_run(
            model::extend(b, more, eof),
        ) by {
        law_peek(a, more, eof);
        let s = model::token_ahead_run(a)->Ready_1;
        assert(model::extend(b, more, eof) =~= (State {
            task: Task::SkipNumber(number::number_start()),
            text: Seq::empty(),
            ..model::consume_token(model::extend(s, more, eof))
        }));
    }
}

/// Skipping can be taken up again behind a token, name, string or number.
pub proof fn lemma_skip_rest_continues_step(a: State, b: State)
    requires
        model::skip_step_run(a) == Outcome::Ready((), b),
        !model::skip_done(b),
    ensures
        model::continues(|s: State| model::skip_rest_run(s), a, b),
        model::skip_rest_run(a) == model::skip_rest_run(b),
{
    assert forall|more: Seq<u8>, eof: bool|
        model::skip_rest_run(#[trigger] model::extend(a, more, eof)) == model::skip_rest_run(
            model::extend(b, more, eof),
        ) by {
        lemma_skip_step(a, more, eof);
    }
}

/// Skipping can be taken up again while a token, name, string or number is skipped.
pub proof fn lemma_skip_rest_continues(a: State, b: State)
    requires
        model::continues(|s: State| model::skip_step_run(s), a, b),
    ensures
        model::continues(|s: State| model::skip_rest_run(s), a, b),
{
    let run = |s: State| model::skip_step_run(s);
    assert forall|more: Seq<u8>, eof: bool|
        model::skip_rest_run(#[trigger] model::extend(a, more, eof)) == model::skip_rest_run(
            model::extend(b, more, eof),
        ) by {
        assert(run(model::extend(a, more, eof)) == run(model::extend(b, more, eof)));
    }
}

/// Skipping a value can be taken up again.
pub proof fn lemma_skip_continues(a: State, b: State)
    requires
        b.skip_depth is Some,
        ({
            let start = if a.skip_depth is Some {
                a
            } else {
                model::skip_start(a)
            };
            model::continues(|s: State| model::skip_rest_run(s), start, b)
        }),
    ensures
        model::continues(|s: State| model::skip_run(s), a, b),
{
    let run = |s: State| model::skip_rest_run(s);
    let start = if a.skip_depth is Some {
        a
    } else {
        model::skip_start(a)
    };
    assert forall|more: Seq<u8>, eof: bool|
        model::skip_run(#[trigger] model::extend(a, more, eof)) == model::skip_run(
            model::extend(b, more, eof),
        ) by {
        assert(run(model::extend(start, more, eof)) == run(model::extend(b, more, eof)));
        assert(model::skip_start(model::extend(a, more, eof)) =~= model::extend(
            model::skip_start(a),
            more,
            eof,
        ));
    }
}

/// Skipping the remainder of a value.
pub proof fn law_skip_rest(st: State, more: Seq<u8>, eof: bool)
    ensures
        stable(
            model::skip_rest_run(st),
            model::skip_rest_run(model::extend(st, more, eof)),
            st,
            more,
            eof,
        ),
    decreases model::work(st),
{
    lemma_skip_step(st, more, eof);
    model::lemma_skip_step_work(st);
    if let Outcome::Ready(_, s) = model::skip_step_run(st) {
        if !model::skip_done(s) {
            law_skip_rest(s, more, eof);
        }
    }
}

/// Skipping a value.
pub proof fn law_skip(st: State, more: Seq<u8>, eof: bool)
    ensures
        stable(
            model::skip_run(st),
            model::skip_run(model::extend(st, more, eof)),
            st,
            more,
            eof,
        ),
{
    law_skip_rest(st, more, eof);
    law_skip_rest(model::skip_start(st), more, eof);
}

#[verifier::spinoff_prover]
#[verifier::rlimit(40)]
pub proof fn lemma_top_step(st: State, more: Seq<u8>, eof: bool)
    ensures
        stable(
            model::top_step_run(st),
            model::top_step_run(model::extend(st, more, eof)),
            st,
            more,
            eof,
        ),
{
    let x = model::extend(st, more, eof);
    if st.skip_depth is Some {
        law_skip_rest(st, more, eof);
    } else if st.task == Task::SkipName {
        law_text(st, more, eof);
    } else if st.expects_member_value() {
        law_skip_rest(model::skip_start(st), more, eof);
        assert(model::skip_start(x) =~= model::extend(model::skip_start(st), more, eof));
    } else {
        law_peek(st, more, eof);
        if let Outcome::Ready(p, s) = model::token_ahead_run(st) {
            law_skip_rest(model::skip_start(s), more, eof);
            assert(model::skip_start(model::extend(s, more, eof)) =~= model::extend(
                model::skip_start(s),
                more,
                eof,
            ));
        }
    }
}

/// Skipping to the top-level can be taken up again while a value is skipped.
pub proof fn lemma_top_step_continues_skip(a: State, start: State, b: State)
    requires
        b.skip_depth is Some,
        start == a && a.skip_depth is Some || start == model::skip_start(a) && a.skip_depth is None
            && a.task != Task::SkipName && a.expects_member_value(),
        model::continues(|s: State| model::skip_rest_run(s), start, b),
    ensures
        model::continues(|s: State| model::top_step_run(s), a, b),
{
    let run = |s: State| model::skip_rest_run(s);
    assert forall|more: Seq<u8>, eof: bool|
        model::top_step_run(#[trigger] model::extend(a, more, eof)) == model::top_step_run(
            model::extend(b, more, eof),
        ) by {
        assert(run(model::extend(start, more, eof)) == run(model::extend(b, more, eof)));
        assert(model::skip_start(model::extend(a, more, eof)) =~= model::extend(
            model::skip_start(a),
            more,
            eof,
        ));
    }
}

/// Skipping to the top-level can be taken up again while a value is skipped whose token has
/// been found.
pub proof fn lemma_top_step_continues_value(a: State, found: State, b: State)
    requires
        b.skip_depth is Some,
        a.skip_depth is None,
        a.task != Task::SkipName,
        !a.expects_member_value(),
        model::token_ahead_run(a) matches Outcome::Ready(p, s) && !model::is_end(p) && p
            != PeekedValue::NameStart && s == found,
        model::continues(|s: State| model::skip_rest_run(s), model::skip_start(found), b),
    ensures
        model::continues(|s: State| model::top_step_run(s), a, b),
{
    let run = |s: State| model::skip_rest_run(s);
    assert forall|more: Seq<u8>, eof: bool|
        model::top_step_run(#[trigger] model::extend(a, more, eof)) == model::top_step_run(
            model::extend(b, more, eof),
        ) by {
        law_peek(a, more, eof);
        assert(run(model::extend(model::skip_start(found), more, eof)) == run(
            model::extend(b, more, eof),
        ));
        assert(model::skip_start(model::extend(found, more, eof)) =~= model::extend(
            model::skip_start(found),
            more,
            eof,
        ));
    }
}

/// Skipping to the top-level can be taken up again inside a name.
pub proof fn lemma_top_step_continues_name(a: State, b: State)
    requires
        a.skip_depth is None,
        b.skip_depth is None,
        a.task == Task::SkipName,
        b.task == Task::SkipName,
        model::continues(|s: State| model::text_run(s), a, b),
    ensures
        model::continues(|s: State| model::top_step_run(s), a, b),
{
    let run = |s: State| model::text_run(s);
    assert forall|more: Seq<u8>, eof: bool|
        model::top_step_run(#[trigger] model::extend(a, more, eof)) == model::top_step_run(
            model::extend(b, more, eof),
        ) by {
        assert(run(model::extend(a, more, eof)) == run(model::extend(b, more, eof)));
    }
}

/// Skipping to the top-level can be taken up again while the next token is looked for.
pub proof fn lemma_top_step_continues_token(a: State, b: State)
    requires
        a.skip_depth is None,
        b.skip_depth is None,
        a.task != Task::SkipName,
        b.task != Task::SkipName,
        !a.expects_member_value(),
        !b.expects_member_value(),
        model::continues(|s: State| model::token_ahead_run(s), a, b),
    ensures
        model::continues(|s: State| model::top_step_run(s), a, b),
{
    let run = |s: State| model::token_ahead_run(s);
    assert forall|more: Seq<u8>, eof: bool|
        model::top_step_run(#[trigger] model::extend(a, more, eof)) == model::top_step_run(
            model::extend(b, more, eof),
        ) by {
        assert(run(model::extend(a, more, eof)) == run(model::extend(b, more, eof)));
    }
}

/// Whether skipping to the top-level is complete.
pub open spec fn top_done(st: State) -> bool {
    st.stack.len() == 0 && st.skip_depth is None && st.task == Task::Idle
}

/// Skipping to the top-level can be taken up again behind one step of it.
pub proof fn lemma_top_continues_step(a: State, b: State)
    requires
        !top_done(a),
        model::top_step_run(a) == Outcome::Ready((), b),
    ensures
        model::continues(|s: State| model::top_run(s), a, b),
        model::top_run(a) == model::top_run(b),
{
    assert forall|more: Seq<u8>, eof: bool|
        model::top_run(#[trigger] model::extend(a, more, eof)) == model::top_run(
            model::extend(b, more, eof),
        ) by {
        lemma_top_step(a, more, eof);
    }
}

/// Skipping to the top-level can be taken up again inside one step of it.
pub proof fn lemma_top_continues(a: State, b: State)
    requires
        !top_done(a),
        !top_done(b),
        model::continues(|s: State| model::top_step_run(s), a, b),
    ensures
        model::continues(|s: State| model::top_run(s), a, b),
{
    let run = |s: State| model::top_step_run(s);
    assert forall|more: Seq<u8>, eof: bool|
        model::top_run(#[trigger] model::extend(a, more, eof)) == model::top_run(
            model::extend(b, more, eof),
        ) by {
        assert(run(model::extend(a, more, eof)) == run(model::extend(b, more, eof)));
    }
}

/// Skipping to the top-level.
pub proof fn law_top(st: State, more: Seq<u8>, eof: bool)
    ensures
        stable(
            model::top_run(st),
            model::top_run(model::extend(st, more, eof)),
            st,
            more,
            eof,
        ),
    decreases model::work(st),
{
    if !(st.stack.len() == 0 && st.skip_depth is None && st.task == Task::Idle) {
        lemma_top_step(st, more, eof);
        model::lemma_top_step_work(st);
        if let Outcome::Ready(_, s) = model::top_step_run(st) {
            law_top(s, more, eof);
        }
    }
}

/// Reading up to the end of the input.
pub proof fn law_trailing(st: State, more: Seq<u8>, eof: bool)
    ensures
        stable(
            model::trailing_run(st),
            model::trailing_run(model::extend(st, more, eof)),
            st,
            more,
            eof,
        ),
{
    law_space(st, more, eof);
}

/// Reading one character of a string which is read piecewise.
pub proof fn law_piece(st: State, more: Seq<u8>, eof: bool)
    ensures
        stable(
            model::piece_run(st),
            model::piece_run(model::extend(st, more, eof)),
            st,
            more,
            eof,
        ),
{
    let unit = text::text_unit(st.rest, st.eof);
    text::lemma_text_unit(st.rest, st.eof);
    if !(unit is Incomplete) {
        if !st.eof {
            text::lemma_text_stable(st.rest, more, eof);
        }
        lemma_skip_extend(st.rest, more, text::unit_len(unit));
        if unit is Fault {
            lemma_malformed(st, more, eof);
        }
    }
}

/// Reading characters of a string which is read piecewise.
pub proof fn law_pieces(st: State, produced: Seq<u8>, want: nat, more: Seq<u8>, eof: bool)
    ensures
        stable(
            model::pieces_run(st, produced, want),
            model::pieces_run(model::extend(st, more, eof), produced, want),
            st,
            more,
            eof,
        ),
    decreases st.rest.len(),
{
    law_piece(st, more, eof);
    text::lemma_text_unit(st.rest, st.eof);
    if produced.len() < want {
        if let Outcome::Ready(Some(bytes), s) = model::piece_run(st) {
            law_pieces(s, produced + bytes, want, more, eof);
        }
    }
}

} // verus!
