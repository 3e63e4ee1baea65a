//! The restriction of numbers has no effect on skipping.

use vstd::prelude::*;

use crate::model;
use crate::model::{Outcome, PeekPhase, State, Task};
use crate::number;
use crate::parts;
use crate::space;
use crate::space::{CommentMode, SpaceUnit};
use crate::text;
use crate::token;
use crate::token::TokenUnit;
use crate::types::{PeekedValue, ReaderSettings, StackValue};

verus! {

/// The state of a reader which restricts numbers, or does not.
pub open spec fn with_restriction(st: State, on: bool) -> State {
    State { settings: ReaderSettings { restrict_number_values: on, ..st.settings }, ..st }
}

/// The outcome for a reader which restricts numbers, or does not.
pub open spec fn with_restriction_outcome<T>(o: Outcome<T>, on: bool) -> Outcome<T> {
    match o {
        Outcome::NeedMore(s) => Outcome::NeedMore(with_restriction(s, on)),
        Outcome::Ready(v, s) => Outcome::Ready(v, with_restriction(s, on)),
        Outcome::Failed(e, s) => Outcome::Failed(e, with_restriction(s, on)),
    }
}

proof fn lemma_space(st: State, on: bool)
    ensures
        model::space_run(with_restriction(st, on)) == with_restriction_outcome(
            model::space_run(st),
            on,
        ),
    decreases
            st.rest.len(),
            if st.comment == CommentMode::Line {
                1int
            } else {
                0int
            },
{
    space::lemma_space_unit(st.comment, st.settings.allow_comments, st.rest, st.eof);
    if let SpaceUnit::Move { len, columns, line_break, mode } = model::space_here(st) {
        lemma_space(model::space_moved(st, len, columns, line_break, mode), on);
    }
}

proof fn lemma_colon(st: State, on: bool)
    ensures
        model::colon_run(with_restriction(st, on)) == with_restriction_outcome(
            model::colon_run(st),
            on,
        ),
{
    lemma_space(st, on);
}

proof fn lemma_behind_comma(st: State, on: bool)
    ensures
        model::behind_comma_run(with_restriction(st, on)) == with_restriction_outcome(
            model::behind_comma_run(st),
            on,
        ),
{
    lemma_space(st, on);
}

proof fn lemma_comma(st: State, on: bool)
    ensures
        model::comma_run(with_restriction(st, on)) == with_restriction_outcome(
            model::comma_run(st),
            on,
        ),
{
    lemma_space(st, on);
    lemma_behind_comma(st, on);
    if let Outcome::Ready(Some(byte), s) = model::space_run(st) {
        let next = State { phase: PeekPhase::Comma(s.place), ..s.moved(1, 1) };
        lemma_behind_comma(next, on);
        assert(with_restriction(next, on) =~= (State {
            phase: PeekPhase::Comma(s.place),
            ..with_restriction(s, on).moved(1, 1)
        }));
    }
}

proof fn lemma_token(st: State, on: bool)
    ensures
        model::token_run(with_restriction(st, on)) == with_restriction_outcome(
            model::token_run(st),
            on,
        ),
{
    let u = with_restriction(st, on);
    let missed = model::token_missed(st);
    assert(with_restriction(missed, on) =~= model::token_missed(u));
    match token::token_unit(st.expects_member_name, st.in_array(), st.rest, st.eof) {
        TokenUnit::Incomplete => {},
        TokenUnit::Fault(kind) => {
            let rest = st.rest.skip(
                token::fault_len(st.expects_member_name, st.in_array(), st.rest, kind),
            );
            assert(with_restriction(State { rest, ..missed }, on) =~= (State {
                rest,
                ..model::token_missed(u)
            }));
        },
        TokenUnit::Token { value, len } => {
            let rest = st.rest.skip(token::literal_len(value));
            assert(with_restriction(State { rest, ..missed }, on) =~= (State {
                rest,
                ..model::token_missed(u)
            }));
            if st.phase is Comma {
                let place = st.phase->Comma_0;
                assert(with_restriction(model::token_missed(State { place, ..st }), on)
                    =~= model::token_missed(State { place, ..u }));
            }
        },
    }
}

#[verifier::spinoff_prover]
#[verifier::rlimit(30)]
proof fn lemma_peek(st: State, on: bool)
    ensures
        model::peek_run(with_restriction(st, on)) == with_restriction_outcome(
            model::peek_run(st),
            on,
        ),
{
    if st.peeked is None {
        lemma_colon(st, on);
        match model::colon_run(st) {
            Outcome::Ready(_, s) => {
                lemma_behind_colon(st, with_restriction(st, on), s, on);
            },
            _ => {},
        }
    }
}

/// Looking for the next token behind the colon.
proof fn lemma_behind_colon(st: State, u: State, s: State, on: bool)
    requires
        st.peeked is None,
        u.peeked is None,
        model::colon_run(st) == Outcome::Ready((), s),
        model::colon_run(u) == Outcome::Ready((), with_restriction(s, on)),
    ensures
        model::peek_run(u) == with_restriction_outcome(model::peek_run(st), on),
{
    lemma_comma(s, on);
    match model::comma_run(s) {
        Outcome::Ready(true, s2) => {
            lemma_token(s2, on);
        },
        _ => {},
    }
}

proof fn lemma_ahead(st: State, on: bool)
    ensures
        model::token_ahead_run(with_restriction(st, on)) == with_restriction_outcome(
            model::token_ahead_run(st),
            on,
        ),
{
    lemma_peek(st, on);
    if let Outcome::Ready(p, s) = model::peek_run(st) {
        assert(model::eof_error(with_restriction(s, on)) == model::eof_error(s));
    }
}

proof fn lemma_text(st: State, on: bool)
    ensures
        model::text_run(with_restriction(st, on)) == with_restriction_outcome(
            model::text_run(st),
            on,
        ),
    decreases st.rest.len(),
{
    let unit = text::text_unit(st.rest, st.eof);
    text::lemma_text_unit(st.rest, st.eof);
    if unit is Raw || unit is Escape {
        lemma_text(model::text_moved(st, unit), on);
        assert(with_restriction(model::text_moved(st, unit), on) =~= model::text_moved(
            with_restriction(st, on),
            unit,
        ));
    }
}

/// Skipping a number does not apply the restrictions.
proof fn lemma_number(st: State, on: bool)
    requires
        st.task is SkipNumber,
    ensures
        model::number_rest_run(with_restriction(st, on)) == with_restriction_outcome(
            model::number_rest_run(st),
            on,
        ),
    decreases st.rest.len(),
{
    if st.rest.len() > 0 {
        if let Some(scan) = number::number_next(model::number_scan(st.task), st.rest[0]) {
            lemma_number(model::number_moved(st, scan), on);
            assert(with_restriction(model::number_moved(st, scan), on) =~= model::number_moved(
                with_restriction(st, on),
                scan,
            ));
        }
    }
}

/// Skipping a number which has been found.
proof fn lemma_skip_number(st: State, on: bool)
    requires
        st.task is SkipNumber,
    ensures
        model::skip_number_run(with_restriction(st, on)) == with_restriction_outcome(
            model::skip_number_run(st),
            on,
        ),
{
    lemma_number(st, on);
    if let Outcome::Ready(_, s) = model::number_rest_run(st) {
        lemma_ended(s, on);
    }
}

/// Counting an array or object which is entered or left for skipping.
proof fn lemma_counted(st: State, kind: StackValue, skip_depth: Option<u64>, on: bool)
    ensures
        with_restriction(model::container_end(State { skip_depth, ..st }), on)
            == model::container_end(State { skip_depth, ..with_restriction(st, on) }),
        with_restriction(model::container_start(State { skip_depth, ..st }, kind), on)
            == model::container_start(State { skip_depth, ..with_restriction(st, on) }, kind),
{
}

/// Skipping the start or the end of an array or object.
proof fn lemma_skip_bracket(p: PeekedValue, st: State, on: bool)
    requires
        p == PeekedValue::ArrayStart || p == PeekedValue::ObjectStart || model::is_end(p),
    ensures
        model::skip_token_run(p, with_restriction(st, on)) == with_restriction_outcome(
            model::skip_token_run(p, st),
            on,
        ),
{
    let depth = st.skip_depth->0;
    let consumed = model::consume_token(st);
    assert(with_restriction(consumed, on) =~= model::consume_token(with_restriction(st, on)));
    let kind = if p == PeekedValue::ArrayStart {
        StackValue::Array
    } else {
        StackValue::Object
    };
    lemma_counted(consumed, kind, Some((depth - 1) as u64), on);
    lemma_counted(consumed, kind, Some((depth + 1) as u64), on);
}

proof fn lemma_skip_token(p: PeekedValue, st: State, on: bool)
    ensures
        model::skip_token_run(p, with_restriction(st, on)) == with_restriction_outcome(
            model::skip_token_run(p, st),
            on,
        ),
{
    let consumed = model::consume_token(st);
    let u = model::consume_token(with_restriction(st, on));
    assert(with_restriction(consumed, on) =~= u);
    match p {
        PeekedValue::NumberStart => {
            let task = Task::SkipNumber(number::number_start());
            let begun = State { task, text: Seq::empty(), ..consumed };
            let other = State { task, text: Seq::empty(), ..u };
            assert(with_restriction(begun, on) =~= other);
            lemma_skip_number(begun, on);
            assert(model::skip_token_run(p, st) == model::skip_number_run(begun));
            assert(model::skip_token_run(p, with_restriction(st, on)) == model::skip_number_run(
                other,
            ));
        },
        PeekedValue::NameStart => {
            lemma_top_token(st, on);
        },
        PeekedValue::ArrayEnd
        | PeekedValue::ObjectEnd
        | PeekedValue::ArrayStart
        | PeekedValue::ObjectStart => {
            lemma_skip_bracket(p, st, on);
        },
        PeekedValue::StringStart => {
            let task = Task::SkipText;
            assert(with_restriction(State { task, text: Seq::empty(), ..consumed }, on)
                =~= (State { task, text: Seq::empty(), ..u }));
        },
        _ => {
            lemma_ended(consumed, on);
        },
    }
}

/// Finishing a name, string or number which is skipped.
proof fn lemma_ended(st: State, on: bool)
    ensures
        with_restriction(model::name_end(st), on) == model::name_end(with_restriction(st, on)),
        with_restriction(model::value_end(st.idle()), on) == model::value_end(
            with_restriction(st, on).idle(),
        ),
        with_restriction(model::value_end(st), on) == model::value_end(with_restriction(st, on)),
{
}

#[verifier::spinoff_prover]
#[verifier::rlimit(30)]
proof fn lemma_skip_step(st: State, on: bool)
    ensures
        model::skip_step_run(with_restriction(st, on)) == with_restriction_outcome(
            model::skip_step_run(st),
            on,
        ),
{
    match st.task {
        Task::SkipName | Task::SkipText => {
            lemma_text(st, on);
            if let Outcome::Ready(_, s) = model::text_run(st) {
                lemma_ended(s, on);
            }
        },
        Task::SkipNumber(_) => {
            lemma_skip_number(st, on);
        },
        _ => {
            lemma_ahead(st, on);
            if let Outcome::Ready(p, s) = model::token_ahead_run(st) {
                lemma_skip_token(p, s, on);
            }
        },
    }
}

proof fn lemma_skip_rest(st: State, on: bool)
    ensures
        model::skip_rest_run(with_restriction(st, on)) == with_restriction_outcome(
            model::skip_rest_run(st),
            on,
        ),
    decreases model::work(st),
{
    lemma_skip_step(st, on);
    model::lemma_skip_step_work(st);
    match model::skip_step_run(st) {
        Outcome::Ready(_, s) => {
            if !model::skip_done(s) {
                lemma_skip_rest(s, on);
            } else {
                assert(with_restriction(State { skip_depth: None, ..s }, on) =~= (State {
                    skip_depth: None,
                    ..with_restriction(s, on)
                }));
            }
        },
        Outcome::Failed(_, s) => {
            assert(with_restriction(model::skip_abandoned(s), on) =~= model::skip_abandoned(
                with_restriction(s, on),
            ));
        },
        _ => {},
    }
}

/// The restriction of numbers has no effect on skipping a value: the outcome is the same, apart
/// from the setting itself.
#[verifier::spinoff_prover]
#[verifier::rlimit(40)]
pub proof fn law_skipping_is_unrestricted(st: State, on: bool)
    ensures
        model::skip_run(with_restriction(st, on)) == with_restriction_outcome(
            model::skip_run(st),
            on,
        ),
{
    if st.skip_depth is Some {
        lemma_skip_rest(st, on);
    } else {
        lemma_skip_rest(model::skip_start(st), on);
        lemma_top_token(st, on);
    }
}

/// Consuming the token which has been found on the way to the top-level.
proof fn lemma_top_token(st: State, on: bool)
    ensures
        with_restriction(model::skip_start(st), on) == model::skip_start(with_restriction(st, on)),
        with_restriction(model::name_start(st, Task::SkipName), on) == model::name_start(
            with_restriction(st, on),
            Task::SkipName,
        ),
        with_restriction(model::container_end(model::consume_token(st)), on) == model::container_end(
            model::consume_token(with_restriction(st, on)),
        ),
{
}

/// What the next token leads to on the way to the top-level.
proof fn lemma_top_found(st: State, p: PeekedValue, s: State, on: bool)
    requires
        st.skip_depth is None,
        st.task != Task::SkipName,
        !st.expects_member_value(),
        model::token_ahead_run(st) == Outcome::Ready(p, s),
        model::token_ahead_run(with_restriction(st, on)) == Outcome::Ready(
            p,
            with_restriction(s, on),
        ),
    ensures
        model::top_step_run(with_restriction(st, on)) == with_restriction_outcome(
            model::top_step_run(st),
            on,
        ),
{
    lemma_top_token(s, on);
    if model::is_end(p) {
    } else if p == PeekedValue::NameStart {
    } else {
        lemma_skip_rest(model::skip_start(s), on);
        assert(model::top_step_run(st) == model::skip_rest_run(model::skip_start(s)));
    }
}

#[verifier::spinoff_prover]
#[verifier::rlimit(40)]
proof fn lemma_top_step(st: State, on: bool)
    ensures
        model::top_step_run(with_restriction(st, on)) == with_restriction_outcome(
            model::top_step_run(st),
            on,
        ),
{
    if st.skip_depth is Some {
        lemma_skip_rest(st, on);
    } else if st.task == Task::SkipName {
        lemma_text(st, on);
        if let Outcome::Ready(_, s) = model::text_run(st) {
            lemma_ended(s, on);
        }
    } else if st.expects_member_value() {
        lemma_skip_rest(model::skip_start(st), on);
        lemma_top_token(st, on);
    } else {
        lemma_ahead(st, on);
        if let Outcome::Ready(p, s) = model::token_ahead_run(st) {
            lemma_top_found(st, p, s, on);
        }
    }
}

/// The restriction of numbers has no effect on skipping to the top-level.
pub proof fn law_skipping_to_top_level_is_unrestricted(st: State, on: bool)
    ensures
        model::top_run(with_restriction(st, on)) == with_restriction_outcome(
            model::top_run(st),
            on,
        ),
    decreases model::work(st),
{
    if !(st.stack.len() == 0 && st.skip_depth is None && st.task == Task::Idle) {
        lemma_top_step(st, on);
        model::lemma_top_step_work(st);
        if let Outcome::Ready(_, s) = model::top_step_run(st) {
            law_skipping_to_top_level_is_unrestricted(s, on);
        }
    }
}

/// Skipping a value has the same effect as reading it by its parts without the restriction of
/// numbers, whether numbers are restricted or not. The setting stays as it is.
pub proof fn law_skipping_is_like_unrestricted_reading(st: State)
    requires
        model::valid(st),
        st.task == Task::Idle,
        st.skip_depth is None,
        !st.expects_member_name,
        !st.string_reader_active,
    ensures
        match parts::parts_run(with_restriction(st, false), 0) {
            Outcome::NeedMore(_) => model::skip_run(st) is NeedMore,
            Outcome::Failed(e, _) => model::skip_run(st) matches Outcome::Failed(e2, _) && e2 == e,
            Outcome::Ready(_, s) => model::skip_run(st) == Outcome::Ready(
                (),
                with_restriction(s, st.settings.restrict_number_values),
            ),
        },
{
    let on = st.settings.restrict_number_values;
    law_skipping_is_unrestricted(st, false);
    law_skipping_is_unrestricted(st, on);
    assert(with_restriction(st, on) =~= st);
    parts::law_skipping_is_like_reading(with_restriction(st, false));
}

} // verus!
