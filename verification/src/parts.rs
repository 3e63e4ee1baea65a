//! Reading a value by its parts, with the operations for arrays, objects, member names,
//! strings, numbers and literals.

use vstd::prelude::*;

use crate::laws;
use crate::model;
use crate::model::{Outcome, State, Task};
use crate::number;
use crate::resume;
use crate::text;
use crate::token;
use crate::types::{PeekedValue, StackValue, ValueType};

verus! {

/// The outcome with another result.
pub open spec fn answered<T, U>(o: Outcome<T>, v: U) -> Outcome<U> {
    match o {
        Outcome::NeedMore(s) => Outcome::NeedMore(s),
        Outcome::Failed(e, s) => Outcome::Failed(e, s),
        Outcome::Ready(_, s) => Outcome::Ready(v, s),
    }
}

/// Looks at the type of the next value and reads it; an array or object is only entered. The
/// result is the number of arrays and objects which have been entered and not left.
pub open spec fn value_start_run(st: State, depth: nat) -> Outcome<nat> {
    match model::type_ahead_run(st) {
        Outcome::NeedMore(s) => Outcome::NeedMore(s),
        Outcome::Failed(e, s) => Outcome::Failed(e, s),
        Outcome::Ready(ty, s) => match ty {
            ValueType::Array => answered(model::begin_run(s, StackValue::Array), depth + 1),
            ValueType::Object => answered(model::begin_run(s, StackValue::Object), depth + 1),
            ValueType::String => answered(model::string_run(s), depth),
            ValueType::Number => answered(model::number_run(s), depth),
            ValueType::Boolean => answered(model::bool_run(s), depth),
            ValueType::Null => answered(model::null_run(s), depth),
        },
    }
}

/// Reads the next array item, or the next object member together with its name. Arrays and
/// objects are only entered.
pub open spec fn element_run(st: State, depth: nat) -> Outcome<nat> {
    if st.expects_member_name {
        match model::name_run(st, Task::Name) {
            Outcome::NeedMore(s) => Outcome::NeedMore(s),
            Outcome::Failed(e, s) => Outcome::Failed(e, s),
            Outcome::Ready(_, s) => value_start_run(s, depth),
        }
    } else {
        value_start_run(st, depth)
    }
}

/// Reads the next part of a value: inside arrays and objects an element, or if there is none
/// the end of the array or object.
pub open spec fn part_run(st: State, depth: nat) -> Outcome<nat> {
    if depth == 0 {
        value_start_run(st, depth)
    } else {
        match model::has_next_run(st) {
            Outcome::NeedMore(s) => Outcome::NeedMore(s),
            Outcome::Failed(e, s) => Outcome::Failed(e, s),
            Outcome::Ready(true, s) => element_run(s, depth),
            Outcome::Ready(false, s) => answered(model::end_run(s), (depth - 1) as nat),
        }
    }
}

/// Reads a value by its parts, where `depth` arrays and objects of it have been entered.
pub open spec fn parts_run(st: State, depth: nat) -> Outcome<()>
    decreases model::work(st),
    when st.task == Task::Idle
    via parts_run_decreases
{
    match part_run(st, depth) {
        Outcome::NeedMore(s) => Outcome::NeedMore(s),
        Outcome::Failed(e, s) => Outcome::Failed(e, s),
        Outcome::Ready(d, s) => if d == 0 {
            Outcome::Ready((), s)
        } else {
            parts_run(s, d)
        },
    }
}

#[via_fn]
proof fn parts_run_decreases(st: State, depth: nat) {
    lemma_part_work(st, depth);
}

/// The state while the value is skipped in which as many arrays and objects have been entered.
pub open spec fn skip_at(st: State, depth: nat) -> State {
    State { skip_depth: Some(depth as u64), ..st }
}

/// What skipping leads to behind a part which has been read.
pub open spec fn skip_behind(st: State, depth: nat) -> Outcome<()> {
    if depth == 0 {
        Outcome::Ready((), st)
    } else {
        model::skip_rest_run(skip_at(st, depth))
    }
}

/// Whether skipping agrees with what reading the next part leads to. Only reading rejects
/// numbers because of the restrictions on them.
pub open spec fn agrees(read: Outcome<nat>, skipped: Outcome<()>) -> bool {
    match read {
        Outcome::NeedMore(_) => skipped is NeedMore,
        Outcome::Failed(e, _) => e is UnsupportedNumberValue || (skipped matches Outcome::Failed(
            e2,
            _,
        ) && e2 == e),
        Outcome::Ready(depth, s) => skipped == skip_behind(s, depth),
    }
}

/// Whether the arrays and objects which can be entered with the available input can be counted.
pub open spec fn countable_depth(st: State, depth: nat) -> bool {
    &&& depth <= st.stack.len()
    &&& st.stack.len() + model::peeked_len(st) + st.rest.len() <= u64::MAX
}

/// Whether a part of a value may be read.
pub open spec fn between_parts(st: State, depth: nat) -> bool {
    &&& st.task == Task::Idle
    &&& st.skip_depth is None
    &&& st.text == Seq::<u8>::empty()
    &&& !st.string_reader_active
    &&& model::peeked_valid(st)
    &&& countable_depth(st, depth)
    &&& depth == 0 ==> !st.expects_member_name
    &&& st.expects_member_name ==> st.in_object()
}

proof fn lemma_value_start_work(st: State, depth: nat)
    requires
        st.task == Task::Idle,
    ensures
        value_start_run(st, depth) matches Outcome::Ready(_, s) ==> model::work(s) < model::work(
            st,
        ) && s.task == Task::Idle,
{
    laws::lemma_peek_change(st);
    if let Outcome::Ready(p, s) = model::token_ahead_run(st) {
        let consumed = model::consume_token(s);
        let string = State { task: Task::Text, text: Seq::empty(), ..consumed };
        let digits = State {
            task: Task::Number(number::number_start()),
            text: Seq::empty(),
            ..consumed
        };
        model::lemma_text_work(string);
        model::lemma_number_work(digits);
    }
}

proof fn lemma_name_work(st: State)
    requires
        st.task == Task::Idle,
    ensures
        model::name_run(st, Task::Name) matches Outcome::Ready(_, s) ==> model::work(s)
            < model::work(st) && s.task == Task::Idle,
{
    model::lemma_peek_work(st);
    if let Outcome::Ready(_, s) = model::before_name_run(st, Task::Name) {
        model::lemma_text_work(s);
    }
}

proof fn lemma_part_work(st: State, depth: nat)
    requires
        st.task == Task::Idle,
    ensures
        part_run(st, depth) matches Outcome::Ready(_, s) ==> model::work(s) < model::work(st)
            && s.task == Task::Idle,
{
    lemma_value_start_work(st, depth);
    model::lemma_peek_work(st);
    if let Outcome::Ready(next, s) = model::has_next_run(st) {
        lemma_value_start_work(s, depth);
        lemma_name_work(s);
        if let Outcome::Ready(_, named) = model::name_run(s, Task::Name) {
            lemma_value_start_work(named, depth);
        }
        model::lemma_peek_work(s);
    }
}

/// Looking for the next token does not depend on whether a value is skipped.
proof fn lemma_ahead_skipping(st: State, depth: nat)
    ensures
        match model::token_ahead_run(st) {
            Outcome::NeedMore(_) => model::token_ahead_run(skip_at(st, depth)) is NeedMore,
            Outcome::Failed(e, _) => model::token_ahead_run(skip_at(st, depth)) matches
                Outcome::Failed(e2, _) && e2 == e,
            Outcome::Ready(p, s) => model::token_ahead_run(skip_at(st, depth)) == Outcome::Ready(
                p,
                skip_at(s, depth),
            ),
        },
{
    laws::lemma_peek_with_depth(st, Some(depth as u64));
}

/// The content of a string or member name does not depend on whether it is collected.
proof fn lemma_text_otherwise(st: State, other: State)
    requires
        other == (State {
            task: other.task,
            text: other.text,
            skip_depth: other.skip_depth,
            ..st
        }),
    ensures
        match model::text_run(st) {
            Outcome::NeedMore(_) => model::text_run(other) is NeedMore,
            Outcome::Failed(e, _) => model::text_run(other) matches Outcome::Failed(e2, _) && e2
                == e,
            Outcome::Ready(_, s) => {
                &&& model::text_run(other) matches Outcome::Ready(_, s2)
                &&& s2 == (State {
                    task: other.task,
                    text: s2.text,
                    skip_depth: other.skip_depth,
                    ..s
                })
                &&& st.collects() && other.collects() && st.text == other.text ==> s2.text
                    == s.text
                &&& !other.collects() ==> s2.text == other.text
            },
        },
    decreases st.rest.len(),
{
    let unit = text::text_unit(st.rest, st.eof);
    text::lemma_text_unit(st.rest, st.eof);
    if unit is Raw || unit is Escape {
        lemma_text_otherwise(model::text_moved(st, unit), model::text_moved(other, unit));
    }
}

/// Reading a number and skipping it agree, except that only reading it applies the
/// restrictions.
proof fn lemma_number_otherwise(st: State, skipped: State)
    requires
        st.task is Number,
        skipped == (State {
            task: Task::SkipNumber(model::number_scan(st.task)),
            text: Seq::empty(),
            skip_depth: skipped.skip_depth,
            ..st
        }),
    ensures
        match model::number_rest_run(st) {
            Outcome::NeedMore(_) => model::number_rest_run(skipped) is NeedMore,
            Outcome::Failed(e, _) => e is UnsupportedNumberValue || (model::number_rest_run(
                skipped,
            ) matches Outcome::Failed(e2, _) && e2 == e),
            Outcome::Ready(_, s) => model::number_rest_run(skipped) == Outcome::Ready(
                Seq::<u8>::empty(),
                State { skip_depth: skipped.skip_depth, ..s },
            ),
        },
    decreases st.rest.len(),
{
    if st.rest.len() > 0 {
        if let Some(scan) = number::number_next(model::number_scan(st.task), st.rest[0]) {
            lemma_number_otherwise(
                model::number_moved(st, scan),
                model::number_moved(skipped, scan),
            );
        }
    }
}

#[verifier::spinoff_prover]
#[verifier::rlimit(30)]
proof fn lemma_number_agrees(st: State, depth: nat, p: PeekedValue, found: State)
    requires
        between_parts(st, depth),
        model::token_ahead_run(st) == Outcome::Ready(p, found),
        p == PeekedValue::NumberStart,
    ensures
        agrees(value_start_run(st, depth), model::skip_rest_run(skip_at(st, depth))),
{
    laws::lemma_peek_change(st);
    lemma_ahead_skipping(st, depth);
    let at = skip_at(found, depth);
    let consumed = model::consume_token(found);
    assert(model::skip_step_run(skip_at(st, depth)) == model::skip_token_run(p, at));
    let digits = State {
        task: Task::Number(number::number_start()),
        text: Seq::empty(),
        ..consumed
    };
    let inside = State {
        task: Task::SkipNumber(number::number_start()),
        text: Seq::empty(),
        ..model::consume_token(at)
    };
    assert(value_start_run(st, depth) == answered(model::number_value_run(digits), depth));
    assert(model::skip_step_run(skip_at(st, depth)) == model::skip_number_run(inside));
    lemma_number_otherwise(digits, inside);
    model::lemma_number_work(digits);
    if let Outcome::Ready(_, s) = model::number_rest_run(digits) {
        let after = model::value_end(s);
        assert(model::skip_step_run(skip_at(st, depth)) == Outcome::Ready(
            (),
            skip_at(after, depth),
        )) by {
            let s2 = State { skip_depth: inside.skip_depth, ..s };
            assert(model::value_end(s2) =~= skip_at(after, depth));
        }
        lemma_behind_step(skip_at(st, depth), after, depth);
    }
}

#[verifier::spinoff_prover]
#[verifier::rlimit(30)]
proof fn lemma_container_agrees(
    st: State,
    depth: nat,
    p: PeekedValue,
    found: State,
    kind: StackValue,
)
    requires
        between_parts(st, depth),
        model::token_ahead_run(st) == Outcome::Ready(p, found),
        p == match kind {
            StackValue::Array => PeekedValue::ArrayStart,
            StackValue::Object => PeekedValue::ObjectStart,
        },
    ensures
        agrees(value_start_run(st, depth), model::skip_rest_run(skip_at(st, depth))),
{
    laws::lemma_peek_change(st);
    lemma_ahead_skipping(st, depth);
    let at = skip_at(found, depth);
    let consumed = model::consume_token(found);
    assert(model::skip_step_run(skip_at(st, depth)) == model::skip_token_run(p, at));
    let after = model::container_start(consumed, kind);
    assert(value_start_run(st, depth) == answered(model::begin_run(found, kind), depth + 1));
    if !model::too_deep(found) {
        assert(model::skip_step_run(skip_at(st, depth)) == Outcome::Ready(
            (),
            skip_at(after, depth + 1),
        )) by {
            let counted = State {
                skip_depth: Some((depth as u64 + 1) as u64),
                ..model::consume_token(at)
            };
            assert(model::container_start(counted, kind) =~= skip_at(after, depth + 1));
        }
        lemma_behind_step(skip_at(st, depth), after, depth + 1);
    }
}

#[verifier::spinoff_prover]
#[verifier::rlimit(30)]
proof fn lemma_literal_agrees(st: State, depth: nat, p: PeekedValue, found: State)
    requires
        between_parts(st, depth),
        model::token_ahead_run(st) == Outcome::Ready(p, found),
        p == PeekedValue::Null || p == PeekedValue::BooleanTrue || p == PeekedValue::BooleanFalse,
    ensures
        agrees(value_start_run(st, depth), model::skip_rest_run(skip_at(st, depth))),
{
    laws::lemma_peek_change(st);
    lemma_ahead_skipping(st, depth);
    let at = skip_at(found, depth);
    let consumed = model::consume_token(found);
    assert(model::skip_step_run(skip_at(st, depth)) == model::skip_token_run(p, at));
    let after = model::value_end(consumed);
    assert(value_start_run(st, depth) == Outcome::Ready(depth, after));
    assert(model::value_end(model::consume_token(at)) =~= skip_at(after, depth));
    lemma_behind_step(skip_at(st, depth), after, depth);
}

/// Behind a step of skipping.
proof fn lemma_behind_step(skipped: State, after: State, depth: nat)
    requires
        after.task == Task::Idle,
        after.skip_depth is None,
        depth <= u64::MAX,
        model::skip_step_run(skipped) == Outcome::Ready((), skip_at(after, depth)),
    ensures
        model::skip_rest_run(skipped) == skip_behind(after, depth),
{
    assert(State { skip_depth: None, ..skip_at(after, depth) } =~= after);
}

proof fn lemma_string_agrees(st: State, depth: nat, found: State)
    requires
        between_parts(st, depth),
        model::token_ahead_run(st) == Outcome::Ready(PeekedValue::StringStart, found),
    ensures
        agrees(value_start_run(st, depth), model::skip_rest_run(skip_at(st, depth))),
{
    laws::lemma_peek_change(st);
    lemma_ahead_skipping(st, depth);
    let at = skip_at(found, depth);
    let string = State {
        task: Task::Text,
        text: Seq::empty(),
        ..model::consume_token(found)
    };
    let inside = State {
        task: Task::SkipText,
        text: Seq::empty(),
        ..model::consume_token(at)
    };
    assert(model::skip_step_run(skip_at(st, depth)) == Outcome::Ready((), inside));
    assert(model::skip_rest_run(skip_at(st, depth)) == model::skip_rest_run(inside));
    lemma_text_otherwise(string, inside);
    model::lemma_text_work(string);
    if let Outcome::Ready(_, s) = model::text_run(string) {
        let after = model::value_end(s.idle());
        assert(model::skip_step_run(inside) == Outcome::Ready((), skip_at(after, depth))) by {
            let s2 = model::text_run(inside)->Ready_1;
            assert(model::value_end(s2.idle()) =~= skip_at(after, depth));
        }
        lemma_behind_step(inside, after, depth);
    }
}

/// The token which is found may stand where the reader is.
proof fn lemma_ahead_valid(st: State)
    requires
        model::peeked_valid(st),
        st.task == Task::Idle,
        !st.string_reader_active,
    ensures
        model::token_ahead_run(st) matches Outcome::Ready(p, s) ==> {
            &&& model::peeked_valid(s)
            &&& p == PeekedValue::ArrayEnd ==> st.in_array()
            &&& st.expects_member_name <==> p == PeekedValue::NameStart || p
                == PeekedValue::ObjectEnd
        },
{
    laws::lemma_peek_change(st);
    if st.peeked is None {
        model::lemma_space_work(st);
        if let Outcome::Ready(_, s) = model::colon_run(st) {
            model::lemma_space_work(s);
            if let Outcome::Ready(Some(byte), s1) = model::space_run(s) {
                model::lemma_space_work(
                    State { phase: model::PeekPhase::Comma(s1.place), ..s1.moved(1, 1) },
                );
            }
            if let Outcome::Ready(true, s2) = model::comma_run(s) {
                token::lemma_token_unit(s2.expects_member_name, s2.in_array(), s2.rest, s2.eof);
            }
        }
    }
}

/// Skipping agrees with looking at the type of the next value and reading it.
proof fn lemma_value_start_agrees(st: State, depth: nat)
    requires
        between_parts(st, depth),
        !st.expects_member_name,
        depth > 0 ==> (model::token_ahead_run(st) matches Outcome::Ready(p, _) ==> p
            != PeekedValue::ArrayEnd),
    ensures
        agrees(value_start_run(st, depth), model::skip_rest_run(skip_at(st, depth))),
{
    laws::lemma_peek_change(st);
    lemma_ahead_valid(st);
    lemma_ahead_skipping(st, depth);
    if let Outcome::Ready(p, found) = model::token_ahead_run(st) {
        match p {
            PeekedValue::ArrayStart => {
                lemma_container_agrees(st, depth, p, found, StackValue::Array);
            },
            PeekedValue::ObjectStart => {
                lemma_container_agrees(st, depth, p, found, StackValue::Object);
            },
            PeekedValue::StringStart => {
                lemma_string_agrees(st, depth, found);
            },
            PeekedValue::NumberStart => {
                lemma_number_agrees(st, depth, p, found);
            },
            PeekedValue::ArrayEnd => {
                assert(model::skip_step_run(skip_at(st, depth)) == model::skip_token_run(
                    p,
                    skip_at(found, depth),
                ));
            },
            PeekedValue::ObjectEnd | PeekedValue::NameStart => {},
            _ => {
                lemma_literal_agrees(st, depth, p, found);
            },
        }
    }
}

/// Skipping a member name agrees with reading it.
#[verifier::spinoff_prover]
#[verifier::rlimit(40)]
proof fn lemma_name_agrees(st: State, depth: nat)
    requires
        between_parts(st, depth),
        depth > 0,
        st.peeked == Some(PeekedValue::NameStart),
    ensures
        match model::name_run(st, Task::Name) {
            Outcome::NeedMore(_) => model::skip_rest_run(skip_at(st, depth)) is NeedMore,
            Outcome::Failed(e, _) => model::skip_rest_run(skip_at(st, depth)) matches
                Outcome::Failed(e2, _) && e2 == e,
            Outcome::Ready(_, named) => {
                &&& model::skip_rest_run(skip_at(st, depth)) == model::skip_rest_run(
                    skip_at(named, depth),
                )
                &&& between_parts(named, depth)
                &&& !named.expects_member_name
                &&& named.in_object()
            },
        },
{
    let at = skip_at(st, depth);
    let begun = model::name_start(st, Task::Name);
    let inside = model::name_start(at, Task::SkipName);
    assert(model::name_run(st, Task::Name) == model::name_rest_run(begun));
    assert(model::skip_step_run(at) == Outcome::Ready((), inside));
    assert(model::skip_rest_run(at) == model::skip_rest_run(inside));
    lemma_text_otherwise(begun, inside);
    model::lemma_text_work(begun);
    if let Outcome::Ready(_, s) = model::text_run(begun) {
        let named = model::name_end(s);
        let s2 = model::text_run(inside)->Ready_1;
        assert(model::name_end(s2) =~= skip_at(named, depth));
        assert(model::skip_step_run(inside) == Outcome::Ready((), skip_at(named, depth)));
    }
}

/// Behind a number nothing is collected.
proof fn lemma_number_collected(st: State)
    ensures
        model::number_rest_run(st) matches Outcome::Ready(_, s) ==> s.text == Seq::<u8>::empty(),
    decreases st.rest.len(),
{
    if st.rest.len() > 0 {
        if let Some(scan) = number::number_next(model::number_scan(st.task), st.rest[0]) {
            lemma_number_collected(model::number_moved(st, scan));
        }
    }
}

/// Reading the next value keeps what holds between parts.
#[verifier::spinoff_prover]
#[verifier::rlimit(40)]
proof fn lemma_value_start_between(st: State, depth: nat)
    requires
        between_parts(st, depth),
    ensures
        value_start_run(st, depth) matches Outcome::Ready(d, s) ==> (d > 0 ==> between_parts(s, d)),
{
    laws::lemma_peek_change(st);
    if let Outcome::Ready(p, s) = model::token_ahead_run(st) {
        let consumed = model::consume_token(s);
        let string = State { task: Task::Text, text: Seq::empty(), ..consumed };
        let digits = State {
            task: Task::Number(number::number_start()),
            text: Seq::empty(),
            ..consumed
        };
        model::lemma_text_work(string);
        model::lemma_number_work(digits);
        lemma_number_collected(digits);
    }
}

/// Leaving an array or object.
#[verifier::spinoff_prover]
#[verifier::rlimit(40)]
proof fn lemma_end_agrees(st: State, depth: nat, p: PeekedValue, found: State)
    requires
        between_parts(st, depth),
        depth > 0,
        model::token_ahead_run(st) == Outcome::Ready(p, found),
        model::is_end(p),
    ensures
        model::end_run(found) == Outcome::Ready(
            (),
            model::container_end(model::consume_token(found)),
        ),
        model::skip_rest_run(skip_at(st, depth)) == skip_behind(
            model::container_end(model::consume_token(found)),
            (depth - 1) as nat,
        ),
        depth > 1 ==> between_parts(
            model::container_end(model::consume_token(found)),
            (depth - 1) as nat,
        ),
{
    laws::lemma_peek_change(st);
    lemma_ahead_skipping(st, depth);
    let at = skip_at(found, depth);
    let after = model::container_end(model::consume_token(found));
    let counted = State {
        skip_depth: Some((depth as u64 - 1) as u64),
        ..model::consume_token(at)
    };
    assert(model::container_end(counted) =~= skip_at(after, (depth - 1) as nat));
    assert(model::skip_step_run(skip_at(st, depth)) == Outcome::Ready(
        (),
        skip_at(after, (depth - 1) as nat),
    ));
    lemma_behind_step(skip_at(st, depth), after, (depth - 1) as nat);
}

/// Skipping agrees with reading the next element, whose first token has been recognized.
#[verifier::spinoff_prover]
#[verifier::rlimit(40)]
proof fn lemma_element_agrees(st: State, depth: nat)
    requires
        between_parts(st, depth),
        depth > 0,
        st.peeked is Some,
        !model::is_end(st.peeked->0),
    ensures
        agrees(element_run(st, depth), model::skip_rest_run(skip_at(st, depth))),
        element_run(st, depth) matches Outcome::Ready(d, s) ==> (d > 0 ==> between_parts(s, d)),
{
    if st.expects_member_name {
        lemma_name_agrees(st, depth);
        if let Outcome::Ready(_, named) = model::name_run(st, Task::Name) {
            lemma_ahead_valid(named);
            lemma_value_start_agrees(named, depth);
            lemma_value_start_between(named, depth);
        }
    } else {
        lemma_value_start_agrees(st, depth);
        lemma_value_start_between(st, depth);
    }
}

/// Skipping agrees with reading the next part.
#[verifier::spinoff_prover]
#[verifier::rlimit(40)]
proof fn lemma_part_agrees(st: State, depth: nat)
    requires
        between_parts(st, depth),
    ensures
        agrees(part_run(st, depth), model::skip_rest_run(skip_at(st, depth))),
        part_run(st, depth) matches Outcome::Ready(d, s) ==> (d > 0 ==> between_parts(s, d)),
{
    if depth == 0 {
        lemma_value_start_agrees(st, depth);
        lemma_value_start_between(st, depth);
    } else {
        laws::lemma_peek_change(st);
        lemma_ahead_valid(st);
        lemma_ahead_skipping(st, depth);
        resume::lemma_peek_frame(st);
        if let Outcome::Ready(p, found) = model::token_ahead_run(st) {
            if model::is_end(p) {
                lemma_end_agrees(st, depth, p, found);
                assert(part_run(st, depth) == answered(
                    model::end_run(found),
                    (depth - 1) as nat,
                ));
            } else {
                assert(model::token_ahead_run(skip_at(found, depth)) == Outcome::Ready(
                    p,
                    skip_at(found, depth),
                ));
                assert(model::skip_step_run(skip_at(st, depth)) == model::skip_step_run(
                    skip_at(found, depth),
                ));
                assert(model::skip_rest_run(skip_at(st, depth)) == model::skip_rest_run(
                    skip_at(found, depth),
                ));
                lemma_element_agrees(found, depth);
                assert(part_run(st, depth) == element_run(found, depth));
            }
        } else {
            assert(!(part_run(st, depth) is Ready));
        }
    }
}

proof fn lemma_parts_agree(st: State, depth: nat)
    requires
        between_parts(st, depth),
    ensures
        match parts_run(st, depth) {
            Outcome::NeedMore(_) => model::skip_rest_run(skip_at(st, depth)) is NeedMore,
            Outcome::Failed(e, _) => e is UnsupportedNumberValue || (model::skip_rest_run(
                skip_at(st, depth),
            ) matches Outcome::Failed(e2, _) && e2 == e),
            Outcome::Ready(_, s) => model::skip_rest_run(skip_at(st, depth)) == Outcome::Ready(
                (),
                s,
            ),
        },
    decreases model::work(st),
{
    lemma_part_agrees(st, depth);
    lemma_part_work(st, depth);
    if let Outcome::Ready(d, s) = part_run(st, depth) {
        if d > 0 {
            lemma_parts_agree(s, d);
        }
    }
}

/// Where numbers are not restricted, none is rejected because of that.
proof fn lemma_number_unrestricted(st: State)
    requires
        !st.settings.restrict_number_values,
    ensures
        model::number_rest_run(st) matches Outcome::Failed(e, _) ==> !(e
            is UnsupportedNumberValue),
    decreases st.rest.len(),
{
    if st.rest.len() > 0 {
        if let Some(scan) = number::number_next(model::number_scan(st.task), st.rest[0]) {
            lemma_number_unrestricted(model::number_moved(st, scan));
        }
    }
}

proof fn lemma_text_failures(st: State)
    ensures
        model::text_run(st) matches Outcome::Failed(e, _) ==> e is Syntax || e is Io,
    decreases st.rest.len(),
{
    let unit = text::text_unit(st.rest, st.eof);
    text::lemma_text_unit(st.rest, st.eof);
    if unit is Raw || unit is Escape {
        lemma_text_failures(model::text_moved(st, unit));
    }
}

proof fn lemma_value_start_unrestricted(st: State, depth: nat)
    requires
        st.task == Task::Idle,
        !st.settings.restrict_number_values,
    ensures
        match value_start_run(st, depth) {
            Outcome::NeedMore(_) => true,
            Outcome::Failed(e, _) => !(e is UnsupportedNumberValue),
            Outcome::Ready(_, s) => s.settings == st.settings && s.task == Task::Idle,
        },
{
    laws::lemma_peek_change(st);
    laws::lemma_peek_failures(st);
    if let Outcome::Ready(p, s) = model::token_ahead_run(st) {
        let consumed = model::consume_token(s);
        let string = State { task: Task::Text, text: Seq::empty(), ..consumed };
        let digits = State {
            task: Task::Number(number::number_start()),
            text: Seq::empty(),
            ..consumed
        };
        model::lemma_text_work(string);
        lemma_text_failures(string);
        model::lemma_number_work(digits);
        lemma_number_unrestricted(digits);
    }
}

proof fn lemma_name_unrestricted(st: State)
    requires
        st.task == Task::Idle,
    ensures
        match model::name_run(st, Task::Name) {
            Outcome::NeedMore(_) => true,
            Outcome::Failed(e, _) => !(e is UnsupportedNumberValue),
            Outcome::Ready(_, s) => s.settings == st.settings && s.task == Task::Idle,
        },
{
    laws::lemma_peek_failures(st);
    resume::lemma_peek_frame(st);
    if let Outcome::Ready(_, s) = model::before_name_run(st, Task::Name) {
        model::lemma_text_work(s);
        lemma_text_failures(s);
    }
}

#[verifier::spinoff_prover]
#[verifier::rlimit(40)]
proof fn lemma_part_unrestricted(st: State, depth: nat)
    requires
        st.task == Task::Idle,
        !st.settings.restrict_number_values,
    ensures
        match part_run(st, depth) {
            Outcome::NeedMore(_) => true,
            Outcome::Failed(e, _) => !(e is UnsupportedNumberValue),
            Outcome::Ready(_, s) => s.settings == st.settings,
        },
{
    if depth == 0 {
        lemma_value_start_unrestricted(st, depth);
    } else {
        laws::lemma_peek_failures(st);
        resume::lemma_peek_frame(st);
        model::lemma_peek_work(st);
        match model::has_next_run(st) {
            Outcome::Ready(true, s) => {
                if s.expects_member_name {
                    lemma_name_unrestricted(s);
                    if let Outcome::Ready(_, named) = model::name_run(s, Task::Name) {
                        lemma_value_start_unrestricted(named, depth);
                    }
                } else {
                    lemma_value_start_unrestricted(s, depth);
                }
            },
            Outcome::Ready(false, s) => {
                assert(s.peeked is Some ==> model::token_ahead_run(s) == Outcome::Ready(
                    s.peeked->0,
                    s,
                ));
                laws::lemma_peek_failures(s);
                resume::lemma_peek_frame(s);
            },
            _ => {},
        }
    }
}

proof fn lemma_parts_unrestricted(st: State, depth: nat)
    requires
        st.task == Task::Idle,
        !st.settings.restrict_number_values,
    ensures
        parts_run(st, depth) matches Outcome::Failed(e, _) ==> !(e is UnsupportedNumberValue),
    decreases model::work(st),
{
    lemma_part_work(st, depth);
    lemma_part_unrestricted(st, depth);
    if let Outcome::Ready(d, s) = part_run(st, depth) {
        if d > 0 {
            lemma_parts_unrestricted(s, d);
        }
    }
}

/// Skipping a value has the same effect as reading it by its parts: the reader is in the same
/// state and at the same place behind it. It fails with the same error where reading fails,
/// except that skipping does not reject numbers because of the restrictions on them.
pub proof fn law_skipping_is_like_reading(st: State)
    requires
        model::valid(st),
        st.task == Task::Idle,
        st.skip_depth is None,
        !st.expects_member_name,
        !st.string_reader_active,
    ensures
        match parts_run(st, 0) {
            Outcome::NeedMore(_) => model::skip_run(st) is NeedMore,
            Outcome::Failed(e, _) => {
                ||| e is UnsupportedNumberValue && st.settings.restrict_number_values
                ||| model::skip_run(st) matches Outcome::Failed(e2, _) && e2 == e
            },
            Outcome::Ready(_, s) => model::skip_run(st) == Outcome::Ready((), s),
        },
{
    lemma_parts_agree(st, 0);
    if !st.settings.restrict_number_values {
        lemma_parts_unrestricted(st, 0);
    }
}

/// Leaves all arrays and objects with the other operations: as long as the current array or
/// object has a next element that is skipped, and otherwise the array or object is left.
pub open spec fn leave_all_run(st: State) -> Outcome<()>
    decreases model::work(st),
    when st.task == Task::Idle && st.skip_depth is None
    via leave_all_run_decreases
{
    if st.stack.len() == 0 {
        Outcome::Ready((), st)
    } else if st.expects_member_value() {
        match model::skip_run(st) {
            Outcome::NeedMore(s) => Outcome::NeedMore(s),
            Outcome::Failed(e, s) => Outcome::Failed(e, s),
            Outcome::Ready(_, s) => leave_all_run(s),
        }
    } else {
        match model::has_next_run(st) {
            Outcome::NeedMore(s) => Outcome::NeedMore(s),
            Outcome::Failed(e, s) => Outcome::Failed(e, s),
            Outcome::Ready(false, s) => match model::end_run(s) {
                Outcome::NeedMore(s) => Outcome::NeedMore(s),
                Outcome::Failed(e, s) => Outcome::Failed(e, s),
                Outcome::Ready(_, s) => leave_all_run(s),
            },
            Outcome::Ready(true, s) => if s.expects_member_name {
                match model::name_run(s, Task::SkipName) {
                    Outcome::NeedMore(s) => Outcome::NeedMore(s),
                    Outcome::Failed(e, s) => Outcome::Failed(e, s),
                    Outcome::Ready(_, s) => leave_all_run(s),
                }
            } else {
                match model::skip_run(s) {
                    Outcome::NeedMore(s) => Outcome::NeedMore(s),
                    Outcome::Failed(e, s) => Outcome::Failed(e, s),
                    Outcome::Ready(_, s) => leave_all_run(s),
                }
            },
        }
    }
}

#[via_fn]
proof fn leave_all_run_decreases(st: State) {
    lemma_leave_work(st);
    if let Outcome::Ready(_, s) = model::has_next_run(st) {
        model::lemma_peek_work(st);
        lemma_leave_work(s);
    }
}

/// Skipping an element and leaving an array or object consume something.
proof fn lemma_leave_work(st: State)
    requires
        st.task == Task::Idle,
        st.skip_depth is None,
    ensures
        model::skip_run(st) matches Outcome::Ready(_, s) ==> model::work(s) < model::work(st),
        model::end_run(st) matches Outcome::Ready(_, s) ==> model::work(s) < model::work(st),
        model::name_run(st, Task::SkipName) matches Outcome::Ready(_, s) ==> model::work(s)
            < model::work(st),
        model::has_next_run(st) matches Outcome::Ready(_, s) ==> model::work(s) <= model::work(st)
            && s.task == Task::Idle && s.skip_depth is None,
{
    model::lemma_skip_work(model::skip_start(st));
    model::lemma_peek_work(st);
    laws::lemma_peek_change(st);
    if let Outcome::Ready(true, s) = model::has_next_run(st) {
        model::lemma_text_work(model::name_start(s, Task::SkipName));
    }
}

/// Skipping one token keeps the reader steady.
proof fn lemma_skip_step_steady(st: State)
    requires
        st.task != Task::Idle ==> st.peeked is None,
        !st.string_reader_active,
    ensures
        model::skip_step_run(st) matches Outcome::Ready(_, s) ==> s.peeked is None
            && !s.string_reader_active,
{
    match st.task {
        Task::SkipName => {
            model::lemma_text_work(st);
        },
        Task::SkipText => {
            model::lemma_text_work(st);
        },
        Task::SkipNumber(_) => {
            model::lemma_number_work(st);
        },
        _ => {
            laws::lemma_peek_change(st);
            if let Outcome::Ready(p, s) = model::token_ahead_run(st) {
                model::lemma_number_work(
                    State {
                        task: Task::SkipNumber(number::number_start()),
                        text: Seq::empty(),
                        ..model::consume_token(s)
                    },
                );
            }
        },
    }
}

/// Behind a value which has been skipped nothing is being read or skipped.
proof fn lemma_skip_idle(st: State)
    requires
        st.task != Task::Idle ==> st.peeked is None,
        !st.string_reader_active,
    ensures
        model::skip_rest_run(st) matches Outcome::Ready(_, s) ==> s.task == Task::Idle
            && s.skip_depth is None && s.peeked is None && !s.string_reader_active,
    decreases model::work(st),
{
    model::lemma_skip_step_work(st);
    lemma_skip_step_steady(st);
    if let Outcome::Ready(_, s) = model::skip_step_run(st) {
        if !model::skip_done(s) {
            lemma_skip_idle(s);
        }
    }
}

/// Whether skipping to the top-level has the same effect as leaving all arrays and objects.
pub open spec fn leaves_all(st: State) -> bool {
    match leave_all_run(st) {
        Outcome::NeedMore(_) => model::top_run(st) is NeedMore,
        Outcome::Failed(e, _) => model::top_run(st) matches Outcome::Failed(e2, _) && e2 == e,
        Outcome::Ready(_, s) => model::top_run(st) == Outcome::Ready((), s) && s.stack.len() == 0,
    }
}

/// A member name is skipped.
proof fn lemma_top_name(st: State, s: State)
    requires
        st.task == Task::Idle,
        st.skip_depth is None,
        st.stack.len() > 0,
        !st.expects_member_value(),
        model::token_ahead_run(st) == Outcome::Ready(PeekedValue::NameStart, s),
        s.peeked == Some(PeekedValue::NameStart),
        s.task == Task::Idle,
        s.skip_depth is None,
    ensures
        match model::name_run(s, Task::SkipName) {
            Outcome::NeedMore(_) => model::top_run(st) is NeedMore,
            Outcome::Failed(e, _) => model::top_run(st) matches Outcome::Failed(e2, _) && e2 == e,
            Outcome::Ready(_, s2) => model::top_run(st) == model::top_run(s2) && s2.task
                == Task::Idle && s2.skip_depth is None && s2.peeked is None
                && s2.string_reader_active == s.string_reader_active,
        },
{
    let begun = model::name_start(s, Task::SkipName);
    assert(model::has_next_run(s) == Outcome::Ready(true, s));
    assert(model::before_name_run(s, Task::SkipName) == Outcome::Ready((), begun));
    assert(model::top_step_run(st) == Outcome::Ready((), begun));
    assert(model::top_run(st) == model::top_run(begun));
    model::lemma_text_work(begun);
}

/// Whether nothing is being read or skipped.
spec fn steady(st: State) -> bool {
    &&& st.task == Task::Idle
    &&& st.skip_depth is None
    &&& !st.string_reader_active
    &&& model::peeked_valid(st)
}

/// Whether both ways to leave all arrays and objects go on from `next`, or else end alike.
spec fn goes_on(st: State, next: Option<State>) -> bool {
    match next {
        Some(s) => {
            &&& model::top_run(st) == model::top_run(s)
            &&& leave_all_run(st) == leave_all_run(s)
            &&& steady(s)
            &&& model::work(s) < model::work(st)
        },
        None => leaves_all(st),
    }
}

/// The value of a member is skipped.
#[verifier::spinoff_prover]
#[verifier::rlimit(40)]
proof fn lemma_top_value(st: State) -> (next: Option<State>)
    requires
        steady(st),
        st.stack.len() > 0,
        st.expects_member_value(),
    ensures
        goes_on(st, next),
{
    lemma_leave_work(st);
    lemma_skip_idle(model::skip_start(st));
    assert(model::top_step_run(st) == model::skip_run(st));
    match model::skip_run(st) {
        Outcome::Ready(_, s) => {
            assert(steady(s));
            Some(s)
        },
        _ => None,
    }
}

/// The next element is skipped, or the array or object is left.
#[verifier::spinoff_prover]
#[verifier::rlimit(40)]
proof fn lemma_top_element(st: State, p: PeekedValue, s: State) -> (next: Option<State>)
    requires
        steady(st),
        st.stack.len() > 0,
        !st.expects_member_value(),
        model::token_ahead_run(st) == Outcome::Ready(p, s),
        model::has_next_run(st) == Outcome::Ready(!model::is_end(p), s),
        steady(s),
        s.peeked == Some(p),
        s.expects_member_name <==> p == PeekedValue::NameStart || p == PeekedValue::ObjectEnd,
        model::work(s) <= model::work(st),
    ensures
        goes_on(st, next),
{
    lemma_leave_work(s);
    if model::is_end(p) {
        let outer = model::container_end(model::consume_token(s));
        assert(model::end_run(s) == Outcome::Ready((), outer));
        assert(model::top_step_run(st) == Outcome::Ready((), outer));
        assert(steady(outer));
        Some(outer)
    } else if p == PeekedValue::NameStart {
        lemma_top_name(st, s);
        match model::name_run(s, Task::SkipName) {
            Outcome::Ready(_, s2) => Some(s2),
            _ => None,
        }
    } else {
        lemma_skip_idle(model::skip_start(s));
        assert(model::top_step_run(st) == model::skip_run(s));
        match model::skip_run(s) {
            Outcome::Ready(_, s2) => Some(s2),
            _ => None,
        }
    }
}

/// Skipping to the top-level has the same effect as skipping all the remaining elements of the
/// current array or object, leaving it, and doing the same with the arrays and objects around it.
#[verifier::spinoff_prover]
#[verifier::rlimit(40)]
pub proof fn law_skipping_to_top_level(st: State)
    requires
        st.task == Task::Idle,
        st.skip_depth is None,
        !st.string_reader_active,
        model::peeked_valid(st),
    ensures
        leaves_all(st),
    decreases model::work(st),
{
    if st.stack.len() > 0 {
        let next = if st.expects_member_value() {
            lemma_top_value(st)
        } else {
            laws::lemma_peek_change(st);
            lemma_ahead_valid(st);
            resume::lemma_peek_frame(st);
            match model::token_ahead_run(st) {
                Outcome::Ready(p, s) => lemma_top_element(st, p, s),
                _ => None,
            }
        };
        if let Some(s) = next {
            law_skipping_to_top_level(s);
        }
    }
}

} // verus!
