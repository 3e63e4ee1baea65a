//! Tracking the JSON path has no effect on reading.
//!
//! Every operation has the same outcome when the path is not tracked, apart from the path
//! itself and the path in error locations.

use vstd::prelude::*;

use crate::model;
use crate::model::{Outcome, PeekPhase, State, Task};
use crate::number;
use crate::reader;
use crate::space;
use crate::space::{CommentMode, SpaceUnit};
use crate::text;
use crate::text::TextUnit;
use crate::token;
use crate::token::TokenUnit;
use crate::types::{ErrorModel, PeekedValue, PositionModel, ReaderSettings, StackValue, ValueType};

verus! {

/// The state of a reader which does not track the path. It does not need the content of a name
/// which is skipped.
pub open spec fn untracked(st: State) -> State {
    State {
        path: None,
        settings: ReaderSettings { track_path: false, ..st.settings },
        text: if st.task == Task::SkipName {
            Seq::empty()
        } else {
            st.text
        },
        ..st
    }
}

pub open spec fn untracked_position(position: PositionModel) -> PositionModel {
    PositionModel { path: None, ..position }
}

/// The error which a reader reports that does not track the path.
pub open spec fn untracked_error(e: ErrorModel) -> ErrorModel {
    match e {
        ErrorModel::Syntax { kind, location } => ErrorModel::Syntax {
            kind,
            location: untracked_position(location),
        },
        ErrorModel::UnexpectedValueType { expected, actual, location } =>
            ErrorModel::UnexpectedValueType {
                expected,
                actual,
                location: untracked_position(location),
            },
        ErrorModel::UnexpectedStructure { kind, location } => ErrorModel::UnexpectedStructure {
            kind,
            location: untracked_position(location),
        },
        ErrorModel::MaxNestingDepthExceeded { max_nesting_depth, location } =>
            ErrorModel::MaxNestingDepthExceeded {
                max_nesting_depth,
                location: untracked_position(location),
            },
        ErrorModel::UnsupportedNumberValue { number, location } =>
            ErrorModel::UnsupportedNumberValue { number, location: untracked_position(location) },
        ErrorModel::Io { kind, message, location } => ErrorModel::Io {
            kind,
            message,
            location: untracked_position(location),
        },
    }
}

/// The outcome for a reader which does not track the path.
pub open spec fn untracked_outcome<T>(o: Outcome<T>) -> Outcome<T> {
    match o {
        Outcome::NeedMore(s) => Outcome::NeedMore(untracked(s)),
        Outcome::Ready(v, s) => Outcome::Ready(v, untracked(s)),
        Outcome::Failed(e, s) => Outcome::Failed(untracked_error(e), untracked(s)),
    }
}

/// Skipping whitespace and comments.
pub proof fn law_space_untracked(st: State)
    ensures
        model::space_run(untracked(st)) == untracked_outcome(model::space_run(st)),
    decreases
            st.rest.len(),
            if st.comment == CommentMode::Line {
                1int
            } else {
                0int
            },
{
    space::lemma_space_unit(st.comment, st.settings.allow_comments, st.rest, st.eof);
    if let SpaceUnit::Move { len, columns, line_break, mode } = model::space_here(st) {
        let next = model::space_moved(st, len, columns, line_break, mode);
        law_space_untracked(next);
        assert(untracked(next) =~= model::space_moved(
            untracked(st),
            len,
            columns,
            line_break,
            mode,
        ));
    }
}

proof fn lemma_comma(st: State)
    ensures
        model::comma_run(untracked(st)) == untracked_outcome(model::comma_run(st)),
{
    law_space_untracked(st);
    if let Outcome::Ready(Some(byte), s) = model::space_run(st) {
        let next = State { phase: PeekPhase::Comma(s.place), ..s.moved(1, 1) };
        law_space_untracked(next);
        assert(untracked(next) =~= (State {
            phase: PeekPhase::Comma(untracked(s).place),
            ..untracked(s).moved(1, 1)
        }));
        lemma_behind_comma(next);
    }
    lemma_behind_comma(st);
    match model::space_run(st) {
        Outcome::NeedMore(_) => {},
        Outcome::Failed(_, s) => {
            lemma_missed(s);
        },
        Outcome::Ready(_, s) => {
            lemma_missed(s);
        },
    }
}

proof fn lemma_missed(st: State)
    ensures
        model::token_missed(untracked(st)) == untracked(model::token_missed(st)),
{
    assert(model::token_missed(untracked(st)) =~= untracked(model::token_missed(st)));
}

proof fn lemma_behind_comma(st: State)
    ensures
        model::behind_comma_run(untracked(st)) == untracked_outcome(model::behind_comma_run(st)),
{
    law_space_untracked(st);
    match model::space_run(st) {
        Outcome::NeedMore(_) => {},
        Outcome::Failed(_, s) => {
            lemma_missed(s);
        },
        Outcome::Ready(_, s) => {
            lemma_missed(s);
        },
    }
}

proof fn lemma_colon(st: State)
    ensures
        model::colon_run(untracked(st)) == untracked_outcome(model::colon_run(st)),
{
    law_space_untracked(st);
    if let Outcome::Ready(Some(byte), s) = model::space_run(st) {
        assert(untracked(s.moved(1, 1)) =~= untracked(s).moved(1, 1));
    }
}

proof fn lemma_token(st: State)
    ensures
        model::token_run(untracked(st)) == untracked_outcome(model::token_run(st)),
{
    let u = untracked(st);
    lemma_missed(st);
    match token::token_unit(st.expects_member_name, st.in_array(), st.rest, st.eof) {
        TokenUnit::Incomplete => {},
        TokenUnit::Fault(kind) => {
            let rest = st.rest.skip(
                token::fault_len(st.expects_member_name, st.in_array(), st.rest, kind),
            );
            assert(untracked(State { rest, ..model::token_missed(st) }) =~= (State {
                rest,
                ..model::token_missed(u)
            }));
        },
        TokenUnit::Token { value, len } => {
            let rest = st.rest.skip(token::literal_len(value));
            assert(untracked(State { rest, ..model::token_missed(st) }) =~= (State {
                rest,
                ..model::token_missed(u)
            }));
            if st.phase is Comma {
                let place = st.phase->Comma_0;
                assert(untracked(State { place, ..st }) =~= (State { place, ..u }));
                lemma_missed(State { place, ..st });
            }
        },
    }
}

/// Looking for the next token.
pub proof fn law_peek_untracked(st: State)
    ensures
        model::peek_run(untracked(st)) == untracked_outcome(model::peek_run(st)),
        model::token_ahead_run(untracked(st)) == untracked_outcome(model::token_ahead_run(st)),
        model::type_ahead_run(untracked(st)) == untracked_outcome(model::type_ahead_run(st)),
{
    lemma_colon(st);
    if let Outcome::Ready(_, s) = model::colon_run(st) {
        lemma_comma(s);
        if let Outcome::Ready(true, s2) = model::comma_run(s) {
            lemma_token(s2);
        }
    }
}

/// Starting a value.
pub proof fn law_expect_untracked(st: State, expected: ValueType, check_depth: bool)
    ensures
        model::expect_run(untracked(st), expected, check_depth) == untracked_outcome(
            model::expect_run(st, expected, check_depth),
        ),
{
    law_peek_untracked(st);
}

/// Entering and leaving arrays and objects.
pub proof fn law_containers_untracked(st: State, kind: StackValue)
    ensures
        model::begin_run(untracked(st), kind) == untracked_outcome(model::begin_run(st, kind)),
        model::end_run(untracked(st)) == untracked_outcome(model::end_run(st)),
        model::has_next_run(untracked(st)) == untracked_outcome(model::has_next_run(st)),
{
    law_peek_untracked(st);
    law_expect_untracked(st, ValueType::Array, true);
    law_expect_untracked(st, ValueType::Object, true);
}

/// Reading literals.
pub proof fn law_literals_untracked(st: State)
    ensures
        model::bool_run(untracked(st)) == untracked_outcome(model::bool_run(st)),
        model::null_run(untracked(st)) == untracked_outcome(model::null_run(st)),
{
    law_expect_untracked(st, ValueType::Boolean, false);
    law_expect_untracked(st, ValueType::Null, false);
}

/// Reading the content of a string or member name.
pub proof fn law_text_untracked(st: State)
    ensures
        model::text_run(untracked(st)) == untracked_outcome(model::text_run(st)),
    decreases st.rest.len(),
{
    let unit = text::text_unit(st.rest, st.eof);
    text::lemma_text_unit(st.rest, st.eof);
    match unit {
        TextUnit::Raw(_) | TextUnit::Escape { .. } => {
            law_text_untracked(model::text_moved(st, unit));
            assert(untracked(model::text_moved(st, unit)) =~= model::text_moved(
                untracked(st),
                unit,
            ));
        },
        TextUnit::End => {
            assert(untracked(st.moved(1, 1)) =~= untracked(st).moved(1, 1));
        },
        TextUnit::Fault(_) => {
            assert(untracked(st.idle()) =~= untracked(st).idle());
        },
        TextUnit::Incomplete => {},
    }
}

proof fn lemma_name_end(st: State)
    ensures
        untracked(model::name_end(st)) == model::name_end(untracked(st)),
        untracked(st.idle()) == untracked(st).idle(),
{
}

/// Reading and skipping member names.
pub proof fn law_names_untracked(st: State)
    ensures
        model::name_run(untracked(st), Task::Name) == untracked_outcome(
            model::name_run(st, Task::Name),
        ),
        reader::unit_outcome(model::name_run(untracked(st), Task::SkipName)) == untracked_outcome(
            reader::unit_outcome(model::name_run(st, Task::SkipName)),
        ),
{
    lemma_name(st, Task::Name);
    lemma_name(st, Task::SkipName);
}

proof fn lemma_name(st: State, task: Task)
    requires
        task == Task::Name || task == Task::SkipName,
    ensures
        task == Task::Name ==> model::name_run(untracked(st), task) == untracked_outcome(
            model::name_run(st, task),
        ),
        reader::unit_outcome(model::name_run(untracked(st), task)) == untracked_outcome(
            reader::unit_outcome(model::name_run(st, task)),
        ),
{
    law_containers_untracked(st, StackValue::Object);
    if st.task == task {
        lemma_name_rest(st);
    } else if let Outcome::Ready(true, s) = model::has_next_run(st) {
        let begun = model::name_start(s, task);
        assert(untracked(begun) =~= model::name_start(untracked(s), task));
        lemma_name_rest(begun);
    }
}

proof fn lemma_name_rest(st: State)
    requires
        st.task == Task::Name || st.task == Task::SkipName,
    ensures
        st.task == Task::Name ==> model::name_rest_run(untracked(st)) == untracked_outcome(
            model::name_rest_run(st),
        ),
        reader::unit_outcome(model::name_rest_run(untracked(st))) == untracked_outcome(
            reader::unit_outcome(model::name_rest_run(st)),
        ),
{
    law_text_untracked(st);
    model::lemma_text_work(st);
    if let Outcome::Ready(_, s) = model::text_run(st) {
        lemma_name_end(s);
    }
}

/// Reading strings.
pub proof fn law_strings_untracked(st: State)
    ensures
        model::string_run(untracked(st)) == untracked_outcome(model::string_run(st)),
        model::string_reader_run(untracked(st)) == untracked_outcome(model::string_reader_run(st)),
{
    law_expect_untracked(st, ValueType::String, false);
    if st.task == Task::Text {
        lemma_string_rest(st);
    } else if let Outcome::Ready(_, s) = model::expect_run(st, ValueType::String, false) {
        let begun = State { task: Task::Text, text: Seq::empty(), ..s };
        assert(untracked(begun) =~= (State {
            task: Task::Text,
            text: Seq::empty(),
            ..untracked(s)
        }));
        lemma_string_rest(begun);
    }
    if let Outcome::Ready(_, s) = model::expect_run(st, ValueType::String, false) {
        assert(untracked(State { string_reader_active: true, ..s }) =~= (State {
            string_reader_active: true,
            ..untracked(s)
        }));
    }
}

proof fn lemma_string_rest(st: State)
    requires
        st.task == Task::Text,
    ensures
        model::string_rest_run(untracked(st)) == untracked_outcome(model::string_rest_run(st)),
{
    law_text_untracked(st);
    model::lemma_text_work(st);
    if let Outcome::Ready(_, s) = model::text_run(st) {
        lemma_name_end(s);
    }
}

proof fn lemma_piece(st: State)
    ensures
        model::piece_run(untracked(st)) == untracked_outcome(model::piece_run(st)),
{
    let unit = text::text_unit(st.rest, st.eof);
    match unit {
        TextUnit::Raw(_) | TextUnit::Escape { .. } => {
            assert(untracked(st.moved(text::unit_len(unit), text::unit_columns(unit)))
                =~= untracked(st).moved(text::unit_len(unit), text::unit_columns(unit)));
        },
        TextUnit::End => {
            assert(untracked(
                model::value_end(State { string_reader_active: false, ..st.moved(1, 1) }),
            ) =~= model::value_end(
                State { string_reader_active: false, ..untracked(st).moved(1, 1) },
            ));
        },
        TextUnit::Fault(_) => {
            let rest = st.rest.skip(text::malformed_len(st.rest, 0));
            assert(untracked(State { rest, ..st }) =~= (State { rest, ..untracked(st) }));
        },
        TextUnit::Incomplete => {},
    }
}

/// Reading strings piecewise.
pub proof fn law_pieces_untracked(st: State, produced: Seq<u8>, want: nat)
    ensures
        model::pieces_run(untracked(st), produced, want) == untracked_outcome(
            model::pieces_run(st, produced, want),
        ),
    decreases st.rest.len(),
{
    if produced.len() < want {
        text::lemma_text_unit(st.rest, st.eof);
        lemma_piece(st);
        if let Outcome::Ready(Some(bytes), s) = model::piece_run(st) {
            law_pieces_untracked(s, produced + bytes, want);
        }
    }
}

proof fn lemma_number_rest(st: State)
    requires
        st.task is Number || st.task is SkipNumber,
    ensures
        model::number_rest_run(untracked(st)) == untracked_outcome(model::number_rest_run(st)),
    decreases st.rest.len(),
{
    if st.rest.len() > 0 {
        match number::number_next(model::number_scan(st.task), st.rest[0]) {
            Some(scan) => {
                let next = model::number_moved(st, scan);
                assert(untracked(next) =~= model::number_moved(untracked(st), scan));
                lemma_number_rest(next);
            },
            None => {
                lemma_number_end(st);
            },
        }
    } else {
        lemma_number_end(st);
    }
}

proof fn lemma_number_end(st: State)
    requires
        st.task is Number || st.task is SkipNumber,
    ensures
        model::number_end(untracked(st)) == untracked_outcome(model::number_end(st)),
{
    lemma_name_end(st);
}

/// Reading numbers.
pub proof fn law_numbers_untracked(st: State)
    ensures
        model::number_run(untracked(st)) == untracked_outcome(model::number_run(st)),
{
    law_expect_untracked(st, ValueType::Number, false);
    if st.task is Number {
        lemma_number_rest(st);
    } else if let Outcome::Ready(_, s) = model::expect_run(st, ValueType::Number, false) {
        let begun = State { task: Task::Number(number::number_start()), text: Seq::empty(), ..s };
        assert(untracked(begun) =~= (State {
            task: Task::Number(number::number_start()),
            text: Seq::empty(),
            ..untracked(s)
        }));
        lemma_number_rest(begun);
    }
}

proof fn lemma_skip_number(st: State)
    requires
        st.task is SkipNumber,
    ensures
        model::skip_number_run(untracked(st)) == untracked_outcome(model::skip_number_run(st)),
{
    lemma_number_rest(st);
}

proof fn lemma_skip_container(st: State, kind: StackValue)
    requires
        st.task != Task::SkipName,
    ensures
        untracked(model::container_start(st, kind)) == model::container_start(untracked(st), kind),
        untracked(model::container_end(st)) == model::container_end(untracked(st)),
        untracked(model::value_end(st)) == model::value_end(untracked(st)),
        untracked(model::consume_token(st)) == model::consume_token(untracked(st)),
{
}

#[verifier::spinoff_prover]
#[verifier::rlimit(30)]
proof fn lemma_skip_token(p: PeekedValue, st: State)
    requires
        st.task != Task::SkipName,
    ensures
        model::skip_token_run(p, untracked(st)) == untracked_outcome(model::skip_token_run(p, st)),
{
    let depth = st.skip_depth->0;
    let consumed = model::consume_token(st);
    let fewer = State { skip_depth: Some((depth - 1) as u64), ..consumed };
    let more = State { skip_depth: Some((depth + 1) as u64), ..consumed };
    assert(untracked(fewer) =~= (State {
        skip_depth: Some((depth - 1) as u64),
        ..model::consume_token(untracked(st))
    }));
    assert(untracked(more) =~= (State {
        skip_depth: Some((depth + 1) as u64),
        ..model::consume_token(untracked(st))
    }));
    match p {
        PeekedValue::NumberStart => {
            let begun = State {
                task: Task::SkipNumber(number::number_start()),
                text: Seq::empty(),
                ..consumed
            };
            assert(untracked(begun) =~= (State {
                task: Task::SkipNumber(number::number_start()),
                text: Seq::empty(),
                ..model::consume_token(untracked(st))
            }));
            lemma_skip_number(begun);
        },
        PeekedValue::NameStart => {
            assert(untracked(model::name_start(st, Task::SkipName)) =~= model::name_start(
                untracked(st),
                Task::SkipName,
            ));
        },
        PeekedValue::ArrayEnd | PeekedValue::ObjectEnd => {
            lemma_skip_container(fewer, StackValue::Array);
        },
        PeekedValue::ArrayStart => {
            lemma_skip_container(more, StackValue::Array);
        },
        PeekedValue::ObjectStart => {
            lemma_skip_container(more, StackValue::Object);
        },
        _ => {
            lemma_skip_container(consumed, StackValue::Array);
        },
    }
}

proof fn lemma_skip_step(st: State)
    ensures
        model::skip_step_run(untracked(st)) == untracked_outcome(model::skip_step_run(st)),
{
    match st.task {
        Task::SkipName => {
            law_text_untracked(st);
            if let Outcome::Ready(_, s) = model::text_run(st) {
                lemma_name_end(s);
            }
        },
        Task::SkipText => {
            law_text_untracked(st);
            if let Outcome::Ready(_, s) = model::text_run(st) {
                lemma_name_end(s);
            }
        },
        Task::SkipNumber(_) => {
            lemma_number_rest(st);
        },
        _ => {
            law_peek_untracked(st);
            model::lemma_peek_work(st);
            if let Outcome::Ready(p, s) = model::token_ahead_run(st) {
                lemma_skip_token(p, s);
            }
        },
    }
}

proof fn lemma_skip_rest(st: State)
    ensures
        model::skip_rest_run(untracked(st)) == untracked_outcome(model::skip_rest_run(st)),
    decreases model::work(st),
{
    lemma_skip_step(st);
    model::lemma_skip_step_work(st);
    match model::skip_step_run(st) {
        Outcome::Ready(_, s) => {
            if !model::skip_done(s) {
                lemma_skip_rest(s);
            } else {
                assert(untracked(State { skip_depth: None, ..s }) =~= (State {
                    skip_depth: None,
                    ..untracked(s)
                }));
            }
        },
        Outcome::Failed(_, s) => {
            assert(untracked(model::skip_abandoned(s)) =~= model::skip_abandoned(untracked(s)));
        },
        _ => {},
    }
}

/// Skipping values.
pub proof fn law_skip_untracked(st: State)
    ensures
        model::skip_run(untracked(st)) == untracked_outcome(model::skip_run(st)),
{
    lemma_skip_rest(st);
    lemma_skip_rest(model::skip_start(st));
    assert(untracked(model::skip_start(st)) =~= model::skip_start(untracked(st)));
}

proof fn lemma_top_token(st: State)
    requires
        st.task != Task::SkipName,
    ensures
        untracked(model::skip_start(st)) == model::skip_start(untracked(st)),
        untracked(model::name_start(st, Task::SkipName)) == model::name_start(
            untracked(st),
            Task::SkipName,
        ),
        untracked(model::container_end(model::consume_token(st))) == model::container_end(
            model::consume_token(untracked(st)),
        ),
        model::skip_rest_run(model::skip_start(untracked(st))) == untracked_outcome(
            model::skip_rest_run(model::skip_start(st)),
        ),
{
    lemma_skip_container(st, StackValue::Array);
    lemma_skip_container(model::consume_token(st), StackValue::Array);
    assert(untracked(model::skip_start(st)) =~= model::skip_start(untracked(st)));
    lemma_skip_rest(model::skip_start(st));
}

#[verifier::spinoff_prover]
#[verifier::rlimit(30)]
proof fn lemma_top_step(st: State)
    ensures
        model::top_step_run(untracked(st)) == untracked_outcome(model::top_step_run(st)),
{
    if st.skip_depth is Some {
        lemma_skip_rest(st);
    } else if st.task == Task::SkipName {
        law_text_untracked(st);
        if let Outcome::Ready(_, s) = model::text_run(st) {
            lemma_name_end(s);
        }
    } else if st.expects_member_value() {
        lemma_top_token(st);
    } else {
        law_peek_untracked(st);
        model::lemma_peek_work(st);
        if let Outcome::Ready(_, s) = model::token_ahead_run(st) {
            lemma_top_token(s);
        }
    }
}

/// Skipping to the top-level.
pub proof fn law_top_untracked(st: State)
    ensures
        model::top_run(untracked(st)) == untracked_outcome(model::top_run(st)),
    decreases model::work(st),
{
    if !(st.stack.len() == 0 && st.skip_depth is None && st.task == Task::Idle) {
        lemma_top_step(st);
        model::lemma_top_step_work(st);
        if let Outcome::Ready(_, s) = model::top_step_run(st) {
            law_top_untracked(s);
        }
    }
}

/// Reading up to the end of the input.
pub proof fn law_trailing_untracked(st: State)
    ensures
        model::trailing_run(untracked(st)) == untracked_outcome(model::trailing_run(st)),
{
    law_space_untracked(st);
}

/// The bytes which are there when reading a string piecewise has to wait for input.
pub proof fn law_pieces_waiting_untracked(st: State, produced: Seq<u8>, want: nat)
    ensures
        model::pieces_waiting(untracked(st), produced, want) == model::pieces_waiting(
            st,
            produced,
            want,
        ),
    decreases st.rest.len(),
{
    if produced.len() < want {
        text::lemma_text_unit(st.rest, st.eof);
        lemma_piece(st);
        if let Outcome::Ready(Some(bytes), s) = model::piece_run(st) {
            law_pieces_waiting_untracked(s, produced + bytes, want);
        }
    }
}

/// Giving up an operation because of an error of the source.
pub proof fn law_source_error_untracked(st: State)
    ensures
        model::source_failed(untracked(st)) == untracked(model::source_failed(st)),
{
    assert(model::source_failed(untracked(st)) =~= untracked(model::source_failed(st)));
}

} // verus!
