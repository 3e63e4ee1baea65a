//! What holds of the operations of the reader as a whole.

use vstd::prelude::*;
use vstd::utf8::*;

use crate::model;
use crate::model::{Outcome, PeekPhase, State, Task};
use crate::resume;
use crate::space;
use crate::space::{CommentMode, SpaceUnit};
use crate::text;
use crate::text::TextUnit;
use crate::token;
use crate::types::{ErrorModel, StackValue, ValueType};

verus! {

/// Input which arrives in two chunks is the same as input which arrives in one.
pub proof fn law_chunks(st: State, first: Seq<u8>, second: Seq<u8>, eof: bool)
    ensures
        model::extend(model::extend(st, first, false), second, eof) == model::extend(
            st,
            first + second,
            eof,
        ),
{
    if !st.eof {
        assert((st.rest + first) + second =~= st.rest + (first + second));
    }
}

/// The state when chunks of input arrive one behind the other, and then, if `eof`, the end of the
/// input.
pub open spec fn supplied(st: State, chunks: Seq<Seq<u8>>, eof: bool) -> State
    decreases chunks.len(),
{
    if chunks.len() == 0 {
        model::extend(st, Seq::empty(), eof)
    } else {
        supplied(model::extend(st, chunks[0], false), chunks.skip(1), eof)
    }
}

/// All bytes of the chunks.
pub open spec fn joined(chunks: Seq<Seq<u8>>) -> Seq<u8>
    decreases chunks.len(),
{
    if chunks.len() == 0 {
        Seq::empty()
    } else {
        chunks[0] + joined(chunks.skip(1))
    }
}

/// It does not matter how the input is divided into chunks: the state, and therefore the outcome
/// of every operation, depends only on the bytes.
pub proof fn law_division_into_chunks(st: State, chunks: Seq<Seq<u8>>, eof: bool)
    ensures
        supplied(st, chunks, eof) == model::extend(st, joined(chunks), eof),
    decreases chunks.len(),
{
    if chunks.len() > 0 {
        law_division_into_chunks(model::extend(st, chunks[0], false), chunks.skip(1), eof);
        law_chunks(st, chunks[0], joined(chunks.skip(1)), eof);
    }
}

/// Looking at the next token does not consume it: whatever is done afterwards has the same
/// outcome as without having looked.
pub proof fn law_peek_is_harmless(st: State, expected: ValueType, check_depth: bool)
    ensures
        model::peek_run(st) matches Outcome::Ready(p, s) ==> {
            &&& model::peek_run(s) == Outcome::Ready(p, s) || p is None
            &&& p is Some ==> {
                &&& model::type_ahead_run(s) == model::type_ahead_run(st)
                &&& model::expect_run(s, expected, check_depth) == model::expect_run(
                    st,
                    expected,
                    check_depth,
                )
                &&& model::end_run(s) == model::end_run(st)
                &&& model::has_next_run(s) == model::has_next_run(st)
                &&& s.task == st.task
            }
        },
{
    model::lemma_peek_work(st);
    resume::lemma_peek_frame(st);
}

/// When the next value has another type than expected, it is still there and can be read as
/// what it is: whatever is done next has the same outcome as without the attempt.
pub proof fn law_wrong_type_is_recoverable(st: State, expected: ValueType, check_depth: bool)
    requires
        st.task == Task::Idle,
    ensures
        model::expect_run(st, expected, check_depth) matches Outcome::Failed(e, s) ==> (e matches
            ErrorModel::UnexpectedValueType { expected: asked, actual, location } ==> {
            &&& asked == expected
            &&& actual != expected
            &&& location == s.position()
            &&& model::type_ahead_run(s) == Outcome::Ready(actual, s)
            &&& model::expect_run(s, actual, false) is Ready
            &&& model::type_ahead_run(s) == model::type_ahead_run(st)
            &&& model::bool_run(s) == model::bool_run(st)
            &&& model::null_run(s) == model::null_run(st)
            &&& model::string_run(s) == model::string_run(st)
            &&& model::string_reader_run(s) == model::string_reader_run(st)
            &&& model::number_run(s) == model::number_run(st)
            &&& forall|kind: StackValue| model::begin_run(s, kind) == model::begin_run(st, kind)
            &&& model::end_run(s) == model::end_run(st)
            &&& model::has_next_run(s) == model::has_next_run(st)
            &&& model::skip_run(s) == model::skip_run(st)
        }),
{
    lemma_peek_failures(st);
    lemma_peek_change(st);
    if let Outcome::Ready(p, s) = model::token_ahead_run(st) {
        assert(model::token_ahead_run(s) == model::token_ahead_run(st));
        if st.skip_depth is None {
            lemma_peek_with_depth(st, Some(0));
            lemma_peek_with_depth(s, Some(0));
            assert(model::skip_step_run(model::skip_start(st)) == model::skip_step_run(
                model::skip_start(s),
            ));
        } else {
            assert(model::skip_step_run(st) == model::skip_step_run(s));
        }
    }
}

/// Looking for the next token fails only because of malformed or invalid input.
pub proof fn lemma_peek_failures(st: State)
    ensures
        model::peek_run(st) matches Outcome::Failed(e, _) ==> e is Syntax || e is Io,
        model::space_run(st) matches Outcome::Failed(e, _) ==> e is Syntax || e is Io,
{
    lemma_space_failures(st);
    if let Outcome::Ready(_, s) = model::colon_run(st) {
        lemma_space_failures(s);
        if let Outcome::Ready(Some(_), s1) = model::space_run(s) {
            lemma_space_failures(
                State { phase: PeekPhase::Comma(s1.place), ..s1.moved(1, 1) },
            );
        }
    }
}

proof fn lemma_space_failures(st: State)
    ensures
        model::space_run(st) matches Outcome::Failed(e, _) ==> e is Syntax || e is Io,
    decreases
            st.rest.len(),
            if st.comment == CommentMode::Line {
                1int
            } else {
                0int
            },
{
    space::lemma_space_unit(st.comment, st.settings.allow_comments, st.rest, st.eof);
    if let SpaceUnit::Move { len, columns, line_break, mode } = model::space_here(st) {
        lemma_space_failures(model::space_moved(st, len, columns, line_break, mode));
    }
}

/// Where the settings limit the nesting depth, no more arrays and objects can be entered than
/// that; the attempt is answered with an error which tells the limit, and the array or object is
/// not consumed.
pub proof fn law_nesting_limit(st: State, kind: StackValue, max: u32)
    requires
        st.settings.max_nesting_depth == Some(max),
        st.stack.len() <= max,
    ensures
        model::begin_run(st, kind) matches Outcome::Ready(_, s) ==> s.stack.len() == st.stack.len()
            + 1 <= max,
        st.stack.len() == max ==> (model::token_ahead_run(st) matches Outcome::Ready(p, s) ==> (
        model::value_type(p) == Some(
            match kind {
                StackValue::Array => ValueType::Array,
                StackValue::Object => ValueType::Object,
            },
        ) ==> model::begin_run(st, kind) == Outcome::<()>::Failed(
            ErrorModel::MaxNestingDepthExceeded { max_nesting_depth: max, location: s.position() },
            s,
        ))),
{
    resume::lemma_peek_frame(st);
}

/// Where the settings do not limit the nesting depth, entering an array or object does not fail
/// because of it.
pub proof fn law_no_nesting_limit(st: State, kind: StackValue)
    requires
        st.settings.max_nesting_depth is None,
    ensures
        model::begin_run(st, kind) matches Outcome::Failed(e, _) ==> !(e
            is MaxNestingDepthExceeded),
{
    lemma_peek_failures(st);
    resume::lemma_peek_frame(st);
}

/// Consuming trailing whitespace succeeds only at the end of the input, with nothing left.
pub proof fn law_trailing_reaches_end(st: State)
    ensures
        model::trailing_run(st) matches Outcome::Ready(_, s) ==> s.eof && s.rest.len() == 0,
{
    lemma_space_reaches_end(st);
}

proof fn lemma_space_reaches_end(st: State)
    ensures
        model::space_run(st) matches Outcome::Ready(None, s) ==> s.eof && s.rest.len() == 0,
    decreases
            st.rest.len(),
            if st.comment == CommentMode::Line {
                1int
            } else {
                0int
            },
{
    space::lemma_space_unit(st.comment, st.settings.allow_comments, st.rest, st.eof);
    if let SpaceUnit::Move { len, columns, line_break, mode } = model::space_here(st) {
        lemma_space_reaches_end(model::space_moved(st, len, columns, line_break, mode));
    }
}

/// Entering an array or object and leaving it again has the same effect on the structure as
/// any other value.
pub proof fn law_leaving_undoes_entering(st: State, kind: StackValue)
    ensures
        model::container_end(model::container_start(st, kind)) == model::value_end(
            State { expects_member_name: false, ..st },
        ),
{
    let inner = model::container_start(st, kind);
    assert(inner.stack.drop_last() =~= st.stack);
    if let Some(steps) = st.path {
        assert(inner.path->0.drop_last() =~= steps);
    }
    assert(model::container_end(inner) =~= model::value_end(
        State { expects_member_name: false, ..st },
    ));
}

/// Leaving an array or object keeps what holds of the path and of member names, and leaves
/// exactly the innermost one.
pub proof fn law_leaving_keeps_the_structure(st: State)
    requires
        st.stack.len() > 0,
        model::place_valid(st.place),
        model::structure_valid_before(st),
    ensures
        model::container_end(st).stack == st.stack.drop_last(),
        !model::container_end(st).is_empty,
        model::structure_valid(model::container_end(st), st.place),
        model::container_end(st).expects_member_name <==> model::container_end(st).in_object(),
{
}

/// The state in which the same string is read as a whole.
pub open spec fn whole(st: State, produced: Seq<u8>) -> State {
    State { task: Task::Text, text: produced, string_reader_active: false, ..st }
}

/// Reading on a string of which the bytes `handed` have been handed out already.
proof fn lemma_piecewise(st: State, handed: Seq<u8>, produced: Seq<u8>, want: nat)
    requires
        st.task == Task::Idle,
        st.string_reader_active,
        st.text == Seq::<u8>::empty(),
        valid_utf8(handed + produced),
    ensures
        match model::pieces_run(st, produced, want) {
            Outcome::NeedMore(_) => model::string_rest_run(whole(st, handed + produced)) is NeedMore,
            Outcome::Ready((bytes, false), s) => {
                &&& bytes.len() >= want
                &&& model::string_rest_run(whole(st, handed + produced)) == model::string_rest_run(
                    whole(s, handed + bytes),
                )
                &&& s.task == Task::Idle
                &&& s.string_reader_active
                &&& s.text == Seq::<u8>::empty()
                &&& valid_utf8(handed + bytes)
            },
            Outcome::Ready((bytes, true), s) => {
                &&& bytes.len() < want
                &&& valid_utf8(handed + bytes)
                &&& model::string_rest_run(whole(st, handed + produced)) == Outcome::Ready(
                    model::text_chars(handed + bytes),
                    s,
                )
            },
            Outcome::Failed(e, s) => {
                &&& model::string_rest_run(whole(st, handed + produced)) matches Outcome::Failed(
                    e2,
                    s2,
                )
                &&& e2 == e
                &&& s == (State { string_reader_active: true, ..s2 })
            },
        },
    decreases st.rest.len(),
{
    let unit = text::text_unit(st.rest, st.eof);
    text::lemma_text_unit(st.rest, st.eof);
    let w = whole(st, handed + produced);
    if produced.len() < want {
        match unit {
            TextUnit::Raw(_) | TextUnit::Escape { .. } => {
                let next = st.moved(text::unit_len(unit), text::unit_columns(unit));
                let bytes = produced + text::unit_bytes(unit, st.rest);
                assert((handed + produced) + text::unit_bytes(unit, st.rest) =~= handed + bytes);
                valid_utf8_concat(handed + produced, text::unit_bytes(unit, st.rest));
                assert(model::text_moved(w, unit) =~= whole(next, handed + bytes));
                lemma_piecewise(next, handed, bytes, want);
            },
            TextUnit::End => {
                assert(model::value_end(w.moved(1, 1).idle()) =~= model::value_end(
                    State { string_reader_active: false, ..st.moved(1, 1) },
                ));
            },
            TextUnit::Fault(_) => {
                assert(w.idle() =~= (State { string_reader_active: false, ..st }));
                assert(st =~= (State { string_reader_active: true, ..w.idle() }));
            },
            TextUnit::Incomplete => {},
        }
    }
}

/// What successive reads of a string into buffers of the given sizes lead to. `handed` are the
/// bytes which have been handed out already, and `pending` those of a character which did not
/// fit into the last buffer. The result are all bytes which have been handed out, those which
/// are pending, and whether the end of the string has been reached.
pub open spec fn reads_run(
    st: State,
    handed: Seq<u8>,
    pending: Seq<u8>,
    sizes: Seq<nat>,
) -> Outcome<(Seq<u8>, Seq<u8>, bool)>
    decreases sizes.len(),
{
    if sizes.len() == 0 {
        Outcome::Ready((handed, pending, false), st)
    } else {
        match model::pieces_run(st, pending, sizes[0]) {
            Outcome::NeedMore(s) => Outcome::NeedMore(s),
            Outcome::Failed(e, s) => Outcome::Failed(e, s),
            Outcome::Ready((bytes, reached_end), s) => if reached_end {
                Outcome::Ready((handed + bytes, Seq::empty(), true), s)
            } else {
                reads_run(
                    s,
                    handed + bytes.take(sizes[0] as int),
                    bytes.skip(sizes[0] as int),
                    sizes.skip(1),
                )
            },
        }
    }
}

proof fn lemma_reads(st: State, handed: Seq<u8>, pending: Seq<u8>, sizes: Seq<nat>)
    requires
        st.task == Task::Idle,
        st.string_reader_active,
        st.text == Seq::<u8>::empty(),
        valid_utf8(handed + pending),
    ensures
        match reads_run(st, handed, pending, sizes) {
            Outcome::NeedMore(_) => model::string_rest_run(whole(st, handed + pending)) is NeedMore,
            Outcome::Ready((all, rest, false), s) => model::string_rest_run(
                whole(st, handed + pending),
            ) == model::string_rest_run(whole(s, all + rest)),
            Outcome::Ready((all, rest, true), s) => rest.len() == 0 && valid_utf8(all)
                && model::string_rest_run(whole(st, handed + pending)) == Outcome::Ready(
                model::text_chars(all),
                s,
            ),
            Outcome::Failed(e, s) => {
                &&& model::string_rest_run(whole(st, handed + pending)) matches Outcome::Failed(
                    e2,
                    s2,
                )
                &&& e2 == e
                &&& s == (State { string_reader_active: true, ..s2 })
            },
        },
    decreases sizes.len(),
{
    if sizes.len() > 0 {
        lemma_piecewise(st, handed, pending, sizes[0]);
        if let Outcome::Ready((bytes, false), s) = model::pieces_run(st, pending, sizes[0]) {
            let size = sizes[0] as int;
            assert((handed + bytes.take(size)) + bytes.skip(size) =~= handed + bytes);
            lemma_reads(s, handed + bytes.take(size), bytes.skip(size), sizes.skip(1));
        }
    }
}

/// Reading a string piecewise, with any number of reads into buffers of any sizes, gives the
/// same characters as reading it as a whole: as long as the string has not ended, what has been
/// handed out is the start of it, and at its end it is all of it. The reader is then in the same
/// state. It fails where reading the string as a whole fails.
pub proof fn law_piecewise_reading(st: State, sizes: Seq<nat>)
    requires
        st.task == Task::Idle,
        !st.string_reader_active,
        st.text == Seq::<u8>::empty(),
    ensures
        match model::string_reader_run(st) {
            Outcome::NeedMore(_) => model::string_run(st) is NeedMore,
            Outcome::Failed(e, s) => model::string_run(st) == Outcome::<Seq<char>>::Failed(e, s),
            Outcome::Ready(_, begun) => match reads_run(begun, Seq::empty(), Seq::empty(), sizes) {
                Outcome::NeedMore(_) => model::string_run(st) is NeedMore,
                Outcome::Ready((all, rest, false), s) => model::string_run(st)
                    == model::string_rest_run(whole(s, all + rest)),
                Outcome::Ready((all, rest, true), s) => {
                    &&& rest.len() == 0
                    &&& model::string_run(st) matches Outcome::Ready(content, s2)
                    &&& all == encode_utf8(content)
                    &&& s == s2
                },
                Outcome::Failed(e, s) => {
                    &&& model::string_run(st) matches Outcome::Failed(e2, s2)
                    &&& e2 == e
                    &&& s == (State { string_reader_active: true, ..s2 })
                },
            },
        },
{
    lemma_peek_change(st);
    if let Outcome::Ready(_, begun) = model::string_reader_run(st) {
        let consumed = model::expect_run(st, ValueType::String, false)->Ready_1;
        assert(Seq::<u8>::empty() + Seq::<u8>::empty() =~= Seq::<u8>::empty());
        lemma_reads(begun, Seq::empty(), Seq::empty(), sizes);
        if let Outcome::Ready((all, _, true), _) = reads_run(
            begun,
            Seq::empty(),
            Seq::empty(),
            sizes,
        ) {
            decode_utf8_encode_utf8(all);
        }
        assert(whole(begun, Seq::empty()) =~= (State {
            task: Task::Text,
            text: Seq::empty(),
            ..consumed
        }));
    }
}

/// What looking for the next token changes.
pub proof fn lemma_peek_change(st: State)
    ensures
        model::token_ahead_run(st) matches Outcome::Ready(p, s) ==> {
            &&& s == (State {
                peeked: Some(p),
                place: s.place,
                comment: s.comment,
                phase: s.phase,
                rest: s.rest,
                ..st
            })
            &&& s.rest.len() + token::token_len(p) <= st.rest.len() + model::peeked_len(st)
        },
{
    model::lemma_peek_work(st);
    if st.peeked is None {
        model::lemma_space_work(st);
        if let Outcome::Ready(_, s) = model::colon_run(st) {
            model::lemma_space_work(s);
            if let Outcome::Ready(Some(byte), s1) = model::space_run(s) {
                model::lemma_space_work(
                    State { phase: PeekPhase::Comma(s1.place), ..s1.moved(1, 1) },
                );
            }
        }
    }
}

/// The outcome with the given skip depth.
pub open spec fn with_depth<T>(o: Outcome<T>, depth: Option<u64>) -> Outcome<T> {
    match o {
        Outcome::NeedMore(s) => Outcome::NeedMore(State { skip_depth: depth, ..s }),
        Outcome::Ready(v, s) => Outcome::Ready(v, State { skip_depth: depth, ..s }),
        Outcome::Failed(e, s) => Outcome::Failed(e, State { skip_depth: depth, ..s }),
    }
}

proof fn lemma_space_with_depth(st: State, depth: Option<u64>)
    ensures
        model::space_run(State { skip_depth: depth, ..st }) == with_depth(
            model::space_run(st),
            depth,
        ),
    decreases
            st.rest.len(),
            if st.comment == CommentMode::Line {
                1int
            } else {
                0int
            },
{
    space::lemma_space_unit(st.comment, st.settings.allow_comments, st.rest, st.eof);
    if let SpaceUnit::Move { len, columns, line_break, mode } = model::space_here(st) {
        lemma_space_with_depth(model::space_moved(st, len, columns, line_break, mode), depth);
    }
}

proof fn lemma_colon_with_depth(st: State, depth: Option<u64>)
    ensures
        model::colon_run(State { skip_depth: depth, ..st }) == with_depth(
            model::colon_run(st),
            depth,
        ),
{
    lemma_space_with_depth(st, depth);
}

proof fn lemma_comma_with_depth(st: State, depth: Option<u64>)
    ensures
        model::comma_run(State { skip_depth: depth, ..st }) == with_depth(
            model::comma_run(st),
            depth,
        ),
{
    lemma_space_with_depth(st, depth);
    lemma_behind_comma_with_depth(st, depth);
    if let Outcome::Ready(Some(byte), s) = model::space_run(st) {
        let next = State { phase: PeekPhase::Comma(s.place), ..s.moved(1, 1) };
        lemma_behind_comma_with_depth(next, depth);
        assert(State { skip_depth: depth, ..next } =~= (State {
            phase: PeekPhase::Comma(s.place),
            ..(State { skip_depth: depth, ..s }).moved(1, 1)
        }));
    }
}

proof fn lemma_behind_comma_with_depth(st: State, depth: Option<u64>)
    ensures
        model::behind_comma_run(State { skip_depth: depth, ..st }) == with_depth(
            model::behind_comma_run(st),
            depth,
        ),
{
    lemma_space_with_depth(st, depth);
}

proof fn lemma_token_with_depth(st: State, depth: Option<u64>)
    ensures
        model::token_run(State { skip_depth: depth, ..st }) == with_depth(
            model::token_run(st),
            depth,
        ),
{
}

/// Looking for the next token does not depend on whether a value is skipped.
pub proof fn lemma_peek_with_depth(st: State, depth: Option<u64>)
    ensures
        model::token_ahead_run(State { skip_depth: depth, ..st }) == with_depth(
            model::token_ahead_run(st),
            depth,
        ),
{
    lemma_colon_with_depth(st, depth);
    if let Outcome::Ready(_, s) = model::colon_run(st) {
        lemma_comma_with_depth(s, depth);
        if let Outcome::Ready(true, s2) = model::comma_run(s) {
            lemma_token_with_depth(s2, depth);
        }
    }
}

} // verus!
