//! Which documents are accepted.
//!
//! The grammar of JSON is stated over complete input. Each of its functions takes the input and
//! tells what is left of it behind the construct it describes, `None` if the input does not
//! start with that construct.

use vstd::prelude::*;

use crate::model;
use crate::model::{Outcome, PeekPhase, State, Task};
use crate::number;
use crate::number::NumberScan;
use crate::position;
use crate::space;
use crate::space::{CommentMode, SpaceUnit};
use crate::text;
use crate::text::TextUnit;
use crate::token;
use crate::token::TokenUnit;
use crate::types::{ErrorModel, PathStep, PeekedValue, ReaderSettings, StackValue};

verus! {

/// Behind whitespace, and behind comments if they are allowed.
pub open spec fn behind_space(allow_comments: bool, mode: CommentMode, s: Seq<u8>) -> Option<
    Seq<u8>,
>
    decreases
            s.len(),
            if mode == CommentMode::Line {
                1int
            } else {
                0int
            },
    via behind_space_decreases
{
    match space::space_unit(mode, allow_comments, s, true) {
        SpaceUnit::Stop => Some(s),
        SpaceUnit::End => Some(s),
        SpaceUnit::Move { len, columns, line_break, mode: next } => behind_space(
            allow_comments,
            next,
            s.skip(len as int),
        ),
        _ => None,
    }
}

#[via_fn]
proof fn behind_space_decreases(allow_comments: bool, mode: CommentMode, s: Seq<u8>) {
    space::lemma_space_unit(mode, allow_comments, s, true);
}

/// Behind whitespace and comments, where the settings decide about comments.
pub open spec fn trimmed(settings: ReaderSettings, s: Seq<u8>) -> Option<Seq<u8>> {
    behind_space(settings.allow_comments, CommentMode::Outside, s)
}

/// Behind the content of a string and its closing `"`.
pub open spec fn behind_string(s: Seq<u8>) -> Option<Seq<u8>>
    decreases s.len(),
    via behind_string_decreases
{
    let unit = text::text_unit(s, true);
    match unit {
        TextUnit::End => Some(s.skip(1)),
        TextUnit::Raw(_) => behind_string(s.skip(text::unit_len(unit))),
        TextUnit::Escape { .. } => behind_string(s.skip(text::unit_len(unit))),
        _ => None,
    }
}

#[via_fn]
proof fn behind_string_decreases(s: Seq<u8>) {
    text::lemma_text_unit(s, true);
}

/// Whether a literal or number may be followed by `s`.
pub open spec fn is_boundary(s: Seq<u8>) -> bool {
    s.len() == 0 || token::is_value_separator(s[0])
}

/// Behind a number of which some characters have been scanned already.
pub open spec fn behind_number(scan: NumberScan, s: Seq<u8>) -> Option<Seq<u8>>
    decreases s.len(),
{
    if s.len() > 0 && number::number_next(scan, s[0]) is Some {
        behind_number(number::number_next(scan, s[0])->0, s.skip(1))
    } else if number::number_complete(scan.phase) && is_boundary(s) {
        Some(s)
    } else {
        None
    }
}

/// Behind a literal.
pub open spec fn behind_literal(s: Seq<u8>, literal: Seq<u8>) -> Option<Seq<u8>> {
    if literal.len() <= s.len() && s.take(literal.len() as int) == literal && is_boundary(
        s.skip(literal.len() as int),
    ) {
        Some(s.skip(literal.len() as int))
    } else {
        None
    }
}

/// How many arrays and objects may be entered inside of one which is entered; `None` means no
/// limit.
pub open spec fn deeper(room: Option<nat>) -> Option<nat> {
    match room {
        Some(n) => Some((n - 1) as nat),
        None => None,
    }
}

/// Behind a value. `room` tells how many arrays and objects may be entered.
pub open spec fn behind_value(settings: ReaderSettings, room: Option<nat>, s: Seq<u8>) -> Option<
    Seq<u8>,
>
    decreases s.len(), 0int,
{
    if s.len() == 0 {
        None
    } else if s[0] == 0x5B {
        if room == Some(0nat) {
            None
        } else {
            behind_items(settings, deeper(room), true, s.skip(1))
        }
    } else if s[0] == 0x7B {
        if room == Some(0nat) {
            None
        } else {
            behind_members(settings, deeper(room), true, s.skip(1))
        }
    } else if s[0] == 0x22 {
        behind_string(s.skip(1))
    } else if s[0] == 0x2D || number::is_digit(s[0]) {
        behind_number(number::number_start(), s)
    } else if s[0] == 0x6E {
        behind_literal(s, token::null_bytes())
    } else if s[0] == 0x74 {
        behind_literal(s, token::true_bytes())
    } else if s[0] == 0x66 {
        behind_literal(s, token::false_bytes())
    } else {
        None
    }
}

/// In front of the next array item or object member: behind the comma which separates it from
/// the previous one. The result tells too whether there was a comma.
pub open spec fn behind_comma(settings: ReaderSettings, first: bool, s: Seq<u8>) -> Option<
    (Seq<u8>, bool),
> {
    match trimmed(settings, s) {
        None => None,
        Some(t) => if t.len() > 0 && t[0] == 0x2C && !first {
            match trimmed(settings, t.skip(1)) {
                None => None,
                Some(u) => Some((u, true)),
            }
        } else {
            Some((t, false))
        },
    }
}

/// Behind the remaining items of an array and its closing `]`. `first` tells that no item
/// has been read yet.
pub open spec fn behind_items(
    settings: ReaderSettings,
    room: Option<nat>,
    first: bool,
    s: Seq<u8>,
) -> Option<Seq<u8>>
    decreases s.len(), 1int,
{
    match behind_comma(settings, first, s) {
        None => None,
        Some((t, comma)) => if t.len() == 0 || t.len() > s.len() {
            None
        } else if t[0] == 0x5D {
            if comma && !settings.allow_trailing_comma {
                None
            } else {
                Some(t.skip(1))
            }
        } else if !first && !comma {
            None
        } else {
            match behind_value(settings, room, t) {
                None => None,
                Some(r) => if r.len() < s.len() {
                    behind_items(settings, room, false, r)
                } else {
                    None
                },
            }
        },
    }
}

/// Behind the remaining members of an object and its closing `}`. `first` tells that no member
/// has been read yet.
pub open spec fn behind_members(
    settings: ReaderSettings,
    room: Option<nat>,
    first: bool,
    s: Seq<u8>,
) -> Option<Seq<u8>>
    decreases s.len(), 1int,
{
    match behind_comma(settings, first, s) {
        None => None,
        Some((t, comma)) => if t.len() == 0 || t.len() > s.len() {
            None
        } else if t[0] == 0x7D {
            if comma && !settings.allow_trailing_comma {
                None
            } else {
                Some(t.skip(1))
            }
        } else if !first && !comma {
            None
        } else if t[0] != 0x22 {
            None
        } else {
            match behind_name(settings, t.skip(1)) {
                None => None,
                Some(v) => if v.len() < s.len() {
                    match behind_value(settings, room, v) {
                        None => None,
                        Some(r) => if r.len() < s.len() {
                            behind_members(settings, room, false, r)
                        } else {
                            None
                        },
                    }
                } else {
                    None
                },
            }
        },
    }
}

/// In front of the value of an object member: behind its name, whose opening `"` has been
/// read already, and the colon.
pub open spec fn behind_name(settings: ReaderSettings, s: Seq<u8>) -> Option<Seq<u8>> {
    match behind_string(s) {
        None => None,
        Some(r) => match trimmed(settings, r) {
            None => None,
            Some(t) => if t.len() > 0 && t[0] == 0x3A {
                trimmed(settings, t.skip(1))
            } else {
                None
            },
        },
    }
}

/// How many arrays and objects may be entered at top-level.
pub open spec fn top_level_room(settings: ReaderSettings) -> Option<nat> {
    match settings.max_nesting_depth {
        Some(max) => Some(max as nat),
        None => None,
    }
}

/// Behind the first value of a document.
pub open spec fn behind_top_level_value(settings: ReaderSettings, s: Seq<u8>) -> Option<Seq<u8>> {
    match trimmed(settings, s) {
        None => None,
        Some(t) => behind_value(settings, top_level_room(settings), t),
    }
}

/// Whether `s` is a JSON document: one value, with whitespace around it.
pub open spec fn is_document(settings: ReaderSettings, s: Seq<u8>) -> bool {
    match behind_top_level_value(settings, s) {
        None => false,
        Some(r) => trimmed(settings, r) == Some(Seq::<u8>::empty()),
    }
}

// What is left is shorter
proof fn lemma_space_len(allow_comments: bool, mode: CommentMode, s: Seq<u8>)
    ensures
        behind_space(allow_comments, mode, s) matches Some(t) ==> t.len() <= s.len() && (t.len() > 0
            ==> space::space_unit(CommentMode::Outside, allow_comments, t, true) is Stop),
    decreases
            s.len(),
            if mode == CommentMode::Line {
                1int
            } else {
                0int
            },
{
    space::lemma_space_unit(mode, allow_comments, s, true);
    if let SpaceUnit::Move { len, columns, line_break, mode: next } = space::space_unit(
        mode,
        allow_comments,
        s,
        true,
    ) {
        lemma_space_len(allow_comments, next, s.skip(len as int));
    }
}

proof fn lemma_string_len(s: Seq<u8>)
    ensures
        behind_string(s) matches Some(r) ==> r.len() < s.len(),
    decreases s.len(),
{
    let unit = text::text_unit(s, true);
    text::lemma_text_unit(s, true);
    if unit is Raw || unit is Escape {
        lemma_string_len(s.skip(text::unit_len(unit)));
    }
}

proof fn lemma_number_len(scan: NumberScan, s: Seq<u8>)
    ensures
        behind_number(scan, s) matches Some(r) ==> r.len() <= s.len() && (!number::number_complete(
            scan.phase,
        ) ==> r.len() < s.len()),
    decreases s.len(),
{
    if s.len() > 0 {
        if let Some(next) = number::number_next(scan, s[0]) {
            lemma_number_len(next, s.skip(1));
        }
    }
}

proof fn lemma_comma_len(settings: ReaderSettings, first: bool, s: Seq<u8>)
    ensures
        behind_comma(settings, first, s) matches Some((t, _)) ==> t.len() <= s.len(),
{
    lemma_space_len(settings.allow_comments, CommentMode::Outside, s);
    if let Some(t) = trimmed(settings, s) {
        if t.len() > 0 {
            lemma_space_len(settings.allow_comments, CommentMode::Outside, t.skip(1));
        }
    }
}

proof fn lemma_value_len(settings: ReaderSettings, room: Option<nat>, s: Seq<u8>)
    ensures
        behind_value(settings, room, s) matches Some(r) ==> r.len() < s.len(),
    decreases s.len(), 0int,
{
    if s.len() > 0 {
        lemma_string_len(s.skip(1));
        lemma_number_len(number::number_start(), s);
        lemma_items_len(settings, deeper(room), true, s.skip(1));
        lemma_members_len(settings, deeper(room), true, s.skip(1));
    }
}

proof fn lemma_items_len(settings: ReaderSettings, room: Option<nat>, first: bool, s: Seq<u8>)
    ensures
        behind_items(settings, room, first, s) matches Some(r) ==> r.len() < s.len(),
    decreases s.len(), 1int,
{
    lemma_comma_len(settings, first, s);
    if let Some((t, comma)) = behind_comma(settings, first, s) {
        if t.len() > 0 {
            lemma_value_len(settings, room, t);
            if let Some(r) = behind_value(settings, room, t) {
                lemma_items_len(settings, room, false, r);
            }
        }
    }
}

proof fn lemma_members_len(settings: ReaderSettings, room: Option<nat>, first: bool, s: Seq<u8>)
    ensures
        behind_members(settings, room, first, s) matches Some(r) ==> r.len() < s.len(),
    decreases s.len(), 1int,
{
    lemma_comma_len(settings, first, s);
    if let Some((t, comma)) = behind_comma(settings, first, s) {
        if t.len() > 0 {
            lemma_name_len(settings, t.skip(1));
            if let Some(v) = behind_name(settings, t.skip(1)) {
                lemma_value_len(settings, room, v);
                if let Some(r) = behind_value(settings, room, v) {
                    lemma_members_len(settings, room, false, r);
                }
            }
        }
    }
}

proof fn lemma_name_len(settings: ReaderSettings, s: Seq<u8>)
    ensures
        behind_name(settings, s) matches Some(r) ==> r.len() < s.len(),
{
    lemma_string_len(s);
    if let Some(r) = behind_string(s) {
        lemma_space_len(settings.allow_comments, CommentMode::Outside, r);
        if let Some(t) = trimmed(settings, r) {
            if t.len() > 0 {
                lemma_space_len(settings.allow_comments, CommentMode::Outside, t.skip(1));
            }
        }
    }
}

// The reader follows the grammar
/// The byte which the input starts with, `None` if there is none.
pub open spec fn first_byte(s: Seq<u8>) -> Option<u8> {
    if s.len() > 0 {
        Some(s[0])
    } else {
        None
    }
}

proof fn lemma_space(st: State)
    requires
        st.eof,
    ensures
        match behind_space(st.settings.allow_comments, st.comment, st.rest) {
            Some(t) => model::space_run(st) matches Outcome::Ready(byte, s) && byte == first_byte(t)
                && s == (State { place: s.place, comment: CommentMode::Outside, rest: t, ..st }),
            None => model::space_run(st) is Failed,
        },
    decreases
            st.rest.len(),
            if st.comment == CommentMode::Line {
                1int
            } else {
                0int
            },
{
    space::lemma_space_unit(st.comment, st.settings.allow_comments, st.rest, st.eof);
    if let SpaceUnit::Move { len, columns, line_break, mode } = model::space_here(st) {
        lemma_space(model::space_moved(st, len, columns, line_break, mode));
    }
}

proof fn lemma_text(st: State)
    requires
        st.eof,
    ensures
        match behind_string(st.rest) {
            Some(r) => model::text_run(st) matches Outcome::Ready(_, s) && s == (State {
                place: s.place,
                text: s.text,
                rest: r,
                ..st
            }),
            None => model::text_run(st) is Failed,
        },
    decreases st.rest.len(),
{
    let unit = text::text_unit(st.rest, true);
    text::lemma_text_unit(st.rest, true);
    if unit is Raw || unit is Escape {
        lemma_text(model::text_moved(st, unit));
    }
}

proof fn lemma_number(st: State)
    requires
        st.eof,
        st.task is SkipNumber,
        st.text == Seq::<u8>::empty(),
    ensures
        match behind_number(model::number_scan(st.task), st.rest) {
            Some(r) => model::number_rest_run(st) matches Outcome::Ready(_, s) && s == (State {
                place: s.place,
                task: Task::Idle,
                rest: r,
                ..st
            }),
            None => model::number_rest_run(st) is Failed,
        },
    decreases st.rest.len(),
{
    if st.rest.len() > 0 {
        if let Some(scan) = number::number_next(model::number_scan(st.task), st.rest[0]) {
            lemma_number(model::number_moved(st, scan));
        }
    }
}

/// A literal is recognized where the grammar allows it.
proof fn lemma_literal(s: Seq<u8>, literal: Seq<u8>, value: PeekedValue)
    ensures
        match behind_literal(s, literal) {
            Some(r) => token::literal_unit(s, true, literal, value) == (TokenUnit::Token {
                value,
                len: literal.len() as usize,
            }),
            None => token::literal_unit(s, true, literal, value) is Fault,
        },
{
    let n = literal.len() as int;
    if n <= s.len() && s.take(n) == literal {
        assert forall|i: int| 0 <= i < s.len() && i < literal.len() implies #[trigger] s[i]
            == literal[i] by {
            assert(s.take(n)[i] == literal[i]);
        }
        assert(!token::differs(s, literal));
        if s.len() > n {
            assert(s.skip(n)[0] == s[n]);
        }
    } else if n <= s.len() {
        if !token::differs(s, literal) {
            assert(s.take(n) =~= literal);
        }
    }
}

/// How many arrays and objects may be entered.
pub open spec fn room(st: State) -> Option<nat> {
    match st.settings.max_nesting_depth {
        Some(max) => Some((max - st.stack.len()) as nat),
        None => None,
    }
}

/// The state between two tokens of a value which is skipped, with all of the input available.
pub open spec fn resting(st: State) -> bool {
    &&& st.eof
    &&& st.task == Task::Idle
    &&& st.phase == PeekPhase::Start
    &&& st.comment == CommentMode::Outside
    &&& st.text == Seq::<u8>::empty()
    &&& st.settings.max_nesting_depth matches Some(max) ==> st.stack.len() <= max
    &&& st.path matches Some(steps) ==> steps.len() == st.stack.len()
    &&& st.skip_depth matches Some(depth) && depth + position::unconsumed(st).len() <= u64::MAX
}

/// The outcome of skipping from a state in which something has just been skipped.
pub open spec fn continued(st: State) -> Outcome<()> {
    if model::skip_done(st) {
        Outcome::Ready((), State { skip_depth: None, ..st })
    } else {
        model::skip_rest_run(st)
    }
}

/// The state in which the first token of a value has been recognized.
pub open spec fn value_ahead(p: PeekedValue, st: State) -> bool {
    &&& resting(st)
    &&& st.peeked == Some(p)
    &&& !st.expects_member_name
    &&& model::value_type(p) is Some
    &&& p == PeekedValue::NumberStart ==> st.rest.len() > 0 && (st.rest[0] == 0x2D
        || number::is_digit(st.rest[0]))
    &&& p == PeekedValue::Null || p == PeekedValue::BooleanTrue || p == PeekedValue::BooleanFalse
        ==> is_boundary(st.rest)
}

/// The state behind a value, where the input `r` is left.
pub open spec fn value_ended(st: State, after: State, r: Seq<u8>) -> bool {
    after == (State {
        peeked: None,
        is_empty: false,
        expects_member_name: st.in_object(),
        place: after.place,
        path: model::path_behind_value(st.stack, st.path),
        rest: r,
        ..st
    })
}

/// The path without its last step.
pub open spec fn outer_path(path: Option<Seq<PathStep>>) -> Option<Seq<PathStep>> {
    match path {
        Some(steps) => Some(steps.drop_last()),
        None => None,
    }
}

/// The state behind the array or object which `st` is inside of, where the input `r` is left.
pub open spec fn container_ended(st: State, after: State, r: Seq<u8>) -> bool {
    let stack = st.stack.drop_last();
    after == (State {
        peeked: None,
        is_empty: false,
        stack,
        expects_member_name: stack.len() > 0 && stack.last() == StackValue::Object,
        place: after.place,
        path: model::path_behind_value(stack, outer_path(st.path)),
        rest: r,
        skip_depth: Some((st.skip_depth->0 - 1) as u64),
        ..st
    })
}

proof fn lemma_step(st: State, s: State)
    requires
        model::skip_step_run(st) == Outcome::Ready((), s),
    ensures
        model::skip_rest_run(st) == continued(s),
{
}

/// A token which has been recognized is skipped as it would be without having been looked at.
proof fn lemma_recognized(st: State, p: PeekedValue, s: State)
    requires
        st.task == Task::Idle,
        s.task == Task::Idle,
        s.peeked == Some(p),
        model::token_ahead_run(st) == Outcome::Ready(p, s),
    ensures
        model::skip_rest_run(st) == model::skip_rest_run(s),
{
    assert(model::token_ahead_run(s) == Outcome::Ready(p, s));
    assert(model::skip_step_run(st) == model::skip_step_run(s));
}

proof fn lemma_skip_literal(p: PeekedValue, st: State) -> (after: State)
    requires
        value_ahead(p, st),
        p == PeekedValue::Null || p == PeekedValue::BooleanTrue || p == PeekedValue::BooleanFalse,
    ensures
        behind_value(st.settings, room(st), position::unconsumed(st)) == Some(st.rest),
        value_ended(st, after, st.rest),
        model::skip_rest_run(st) == continued(after),
{
    let bytes = position::token_bytes(p);
    let u = position::unconsumed(st);
    assert(u[0] == bytes[0]);
    assert(u.take(bytes.len() as int) =~= bytes);
    assert(u.skip(bytes.len() as int) =~= st.rest);
    let after = model::value_end(model::consume_token(st));
    assert(model::token_ahead_run(st) == Outcome::Ready(p, st));
    assert(model::skip_step_run(st) == Outcome::Ready((), after));
    lemma_step(st, after);
    after
}

proof fn lemma_skip_string(st: State) -> (after: State)
    requires
        value_ahead(PeekedValue::StringStart, st),
    ensures
        match behind_value(st.settings, room(st), position::unconsumed(st)) {
            Some(r) => value_ended(st, after, r) && model::skip_rest_run(st) == continued(after),
            None => model::skip_rest_run(st) is Failed,
        },
{
    let p = PeekedValue::StringStart;
    let u = position::unconsumed(st);
    assert(u[0] == 0x22);
    assert(u.skip(1) =~= st.rest);
    let inside = State { task: Task::SkipText, text: Seq::empty(), ..model::consume_token(st) };
    assert(model::token_ahead_run(st) == Outcome::Ready(p, st));
    assert(model::skip_step_run(st) == Outcome::Ready((), inside));
    lemma_step(st, inside);
    lemma_text(inside);
    match model::text_run(inside) {
        Outcome::Ready(_, s) => {
            let after = model::value_end(s.idle());
            assert(model::skip_step_run(inside) == Outcome::Ready((), after));
            lemma_step(inside, after);
            assert(after =~= (State {
                peeked: None,
                is_empty: false,
                expects_member_name: st.in_object(),
                place: after.place,
                path: model::path_behind_value(st.stack, st.path),
                rest: after.rest,
                ..st
            }));
            after
        },
        _ => st,
    }
}

proof fn lemma_skip_number(st: State) -> (after: State)
    requires
        value_ahead(PeekedValue::NumberStart, st),
    ensures
        match behind_value(st.settings, room(st), position::unconsumed(st)) {
            Some(r) => value_ended(st, after, r) && model::skip_rest_run(st) == continued(after),
            None => model::skip_rest_run(st) is Failed,
        },
{
    let p = PeekedValue::NumberStart;
    let u = position::unconsumed(st);
    assert(u =~= st.rest);
    let inside = State {
        task: Task::SkipNumber(number::number_start()),
        text: Seq::empty(),
        ..model::consume_token(st)
    };
    assert(model::token_ahead_run(st) == Outcome::Ready(p, st));
    lemma_number(inside);
    match model::number_rest_run(inside) {
        Outcome::Ready(_, s) => {
            let after = model::value_end(s);
            assert(model::skip_step_run(st) == Outcome::Ready((), after));
            lemma_step(st, after);
            after
        },
        _ => st,
    }
}

/// What is known of a state in which the next token is looked for inside an array or object
/// which is skipped.
pub open spec fn inside_container(st: State, kind: StackValue) -> bool {
    &&& resting(st)
    &&& st.peeked is None
    &&& st.stack.len() > 0
    &&& st.stack.last() == kind
    &&& st.expects_member_name == (kind == StackValue::Object)
    &&& st.skip_depth->0 >= 1
}

/// Entering an array or object.
proof fn lemma_enter(p: PeekedValue, st: State, kind: StackValue) -> (inside: State)
    requires
        value_ahead(p, st),
        p == PeekedValue::ArrayStart && kind == StackValue::Array || p == PeekedValue::ObjectStart
            && kind == StackValue::Object,
        room(st) != Some(0nat),
    ensures
        inside_container(inside, kind),
        inside.rest == st.rest,
        inside.is_empty,
        inside.settings == st.settings,
        room(inside) == deeper(room(st)),
        model::skip_rest_run(st) == model::skip_rest_run(inside),
        forall|after: State, r: Seq<u8>|
            #[trigger] container_ended(inside, after, r) ==> value_ended(st, after, r),
        position::unconsumed(inside).len() + 1 == position::unconsumed(st).len(),
{
    let depth = st.skip_depth->0;
    let entered = State { skip_depth: Some((depth + 1) as u64), ..model::consume_token(st) };
    let inside = model::container_start(entered, kind);
    assert(model::token_ahead_run(st) == Outcome::Ready(p, st));
    assert(position::unconsumed(st).len() == 1 + st.rest.len());
    assert(!model::too_deep(st));
    assert(model::skip_step_run(st) == Outcome::Ready((), inside));
    lemma_step(st, inside);
    assert(inside.stack.drop_last() =~= st.stack);
    if let Some(steps) = st.path {
        assert(inside.path->0.drop_last() =~= steps);
    }
    inside
}

/// Leaving the current array or object.
proof fn lemma_leave(p: PeekedValue, st: State, kind: StackValue) -> (after: State)
    requires
        resting(st),
        st.peeked == Some(p),
        p == PeekedValue::ArrayEnd && kind == StackValue::Array || p == PeekedValue::ObjectEnd && kind
            == StackValue::Object,
        st.stack.len() > 0,
        st.skip_depth->0 >= 1,
    ensures
        container_ended(st, after, st.rest),
        model::skip_rest_run(st) == continued(after),
{
    let depth = st.skip_depth->0;
    let after = model::container_end(
        State { skip_depth: Some((depth - 1) as u64), ..model::consume_token(st) },
    );
    assert(model::token_ahead_run(st) == Outcome::Ready(p, st));
    assert(model::skip_step_run(st) == Outcome::Ready((), after));
    lemma_step(st, after);
    after
}

/// Looking for the token behind a comma.
proof fn lemma_find_behind_comma(st: State)
    requires
        st.eof,
        st.comment == CommentMode::Outside,
        !(st.phase is Comma),
    ensures
        match behind_comma(st.settings, !st.can_have_comma(), st.rest) {
            None => model::comma_run(st) is Failed,
            Some((u, comma)) => if u.len() == 0 {
                model::comma_run(st) is Failed || (model::comma_run(st) matches Outcome::Ready(
                    found,
                    s,
                ) && !found)
            } else if !comma && u[0] == 0x2C {
                model::comma_run(st) is Failed
            } else {
                model::comma_run(st) matches Outcome::Ready(found, s) && found && s == (State {
                    place: s.place,
                    phase: s.phase,
                    rest: u,
                    ..st
                }) && (s.phase is Comma <==> comma) && (!comma ==> s.phase == st.phase) && u.len()
                    <= st.rest.len()
            },
        },
{
    lemma_space(st);
    lemma_comma_len(st.settings, !st.can_have_comma(), st.rest);
    if let Outcome::Ready(Some(byte), s) = model::space_run(st) {
        let behind = State { phase: PeekPhase::Comma(s.place), ..s.moved(1, 1) };
        lemma_space(behind);
    }
}

/// Recognizing a token where a value may stand.
proof fn lemma_recognize_value(st: State)
    requires
        st.eof,
        st.rest.len() > 0,
        !st.expects_member_name,
        st.rest[0] != 0x5D || !st.in_array(),
    ensures
        match token::token_unit(false, st.in_array(), st.rest, true) {
            TokenUnit::Token { value, len } => {
                let rest = st.rest.skip(len as int);
                &&& model::value_type(value) is Some
                &&& st.rest == position::token_bytes(value) + rest
                &&& value == PeekedValue::NumberStart ==> rest.len() > 0 && (rest[0] == 0x2D
                    || number::is_digit(rest[0]))
                &&& value == PeekedValue::Null || value == PeekedValue::BooleanTrue || value
                    == PeekedValue::BooleanFalse ==> is_boundary(rest)
            },
            TokenUnit::Fault(_) => forall|room: Option<nat>|
                #[trigger] behind_value(st.settings, room, st.rest) is None,
            TokenUnit::Incomplete => false,
        },
{
    let s = st.rest;
    position::lemma_token_bytes(false, st.in_array(), s, true);
    token::lemma_token_unit(false, st.in_array(), s, true);
    lemma_literal(s, token::null_bytes(), PeekedValue::Null);
    lemma_literal(s, token::true_bytes(), PeekedValue::BooleanTrue);
    lemma_literal(s, token::false_bytes(), PeekedValue::BooleanFalse);
    assert(s.skip(0) =~= s);
}

/// Looking for a value where the input `st.rest` starts with a token: either the token of a
/// value is recognized, or looking for it fails.
proof fn lemma_token_of_value(st: State)
    requires
        st.eof,
        st.rest.len() > 0,
        !st.expects_member_name,
        st.rest[0] != 0x5D || !st.in_array(),
        st.task == Task::Idle,
        st.comment == CommentMode::Outside,
        st.text == Seq::<u8>::empty(),
        st.settings.max_nesting_depth matches Some(max) ==> st.stack.len() <= max,
        st.path matches Some(steps) ==> steps.len() == st.stack.len(),
        st.skip_depth matches Some(depth) && depth + st.rest.len() <= u64::MAX,
    ensures
        match model::token_run(st) {
            Outcome::Ready(p, s) => {
                &&& p is Some
                &&& value_ahead(p->0, s)
                &&& position::unconsumed(s) == st.rest
                &&& s == (State {
                    peeked: p,
                    phase: PeekPhase::Start,
                    rest: s.rest,
                    ..st
                })
                &&& st.can_have_comma() ==> st.phase is Comma
            },
            Outcome::Failed(_, _) => {
                ||| forall|room: Option<nat>|
                    #[trigger] behind_value(st.settings, room, st.rest) is None
                ||| st.can_have_comma() && !(st.phase is Comma)
            },
            Outcome::NeedMore(_) => false,
        },
{
    lemma_recognize_value(st);
}

/// Skipping a value follows the grammar.
proof fn lemma_value(p: PeekedValue, st: State) -> (after: State)
    requires
        value_ahead(p, st),
    ensures
        match behind_value(st.settings, room(st), position::unconsumed(st)) {
            Some(r) => value_ended(st, after, r) && model::skip_rest_run(st) == continued(after),
            None => model::skip_rest_run(st) is Failed,
        },
    decreases position::unconsumed(st).len(), 0int,
{
    let u = position::unconsumed(st);
    match p {
        PeekedValue::StringStart => lemma_skip_string(st),
        PeekedValue::NumberStart => lemma_skip_number(st),
        PeekedValue::ArrayStart => {
            assert(u[0] == 0x5B && u.skip(1) =~= st.rest);
            if room(st) == Some(0nat) {
                lemma_too_deep(p, st);
                st
            } else {
                let inside = lemma_enter(p, st, StackValue::Array);
                lemma_items(inside)
            }
        },
        PeekedValue::ObjectStart => {
            assert(u[0] == 0x7B && u.skip(1) =~= st.rest);
            if room(st) == Some(0nat) {
                lemma_too_deep(p, st);
                st
            } else {
                let inside = lemma_enter(p, st, StackValue::Object);
                lemma_members(inside)
            }
        },
        _ => lemma_skip_literal(p, st),
    }
}

proof fn lemma_too_deep(p: PeekedValue, st: State)
    requires
        value_ahead(p, st),
        p == PeekedValue::ArrayStart || p == PeekedValue::ObjectStart,
        room(st) == Some(0nat),
    ensures
        model::skip_rest_run(st) is Failed,
{
    assert(model::token_ahead_run(st) == Outcome::Ready(p, st));
    assert(model::too_deep(st));
    assert(model::skip_step_run(st) is Failed);
}

/// A value changes at most the last step of the path.
proof fn lemma_outer_path(stack: Seq<StackValue>, path: Option<Seq<PathStep>>)
    ensures
        outer_path(model::path_behind_value(stack, path)) == outer_path(path),
{
    if let Some(steps) = path {
        if stack.len() > 0 && stack.last() == StackValue::Array && steps.len() > 0 {
            assert(model::path_behind_value(stack, path)->0.drop_last() =~= steps.drop_last());
        }
    }
}

/// Skipping the remaining items of an array follows the grammar.
#[verifier::spinoff_prover]
#[verifier::rlimit(60)]
proof fn lemma_items(st: State) -> (after: State)
    requires
        inside_container(st, StackValue::Array),
    ensures
        match behind_items(st.settings, room(st), st.is_empty, st.rest) {
            Some(r) => container_ended(st, after, r) && model::skip_rest_run(st) == continued(after),
            None => model::skip_rest_run(st) is Failed,
        },
    decreases st.rest.len(), 1int,
{
    lemma_find_behind_comma(st);
    lemma_comma_len(st.settings, st.is_empty, st.rest);
    assert(st.can_have_comma() == !st.is_empty);
    assert(model::colon_run(st) == Outcome::Ready((), st));
    match behind_comma(st.settings, st.is_empty, st.rest) {
        None => {
            assert(model::skip_step_run(st) is Failed);
            st
        },
        Some((u, comma)) => {
            if u.len() == 0 || (!comma && u[0] == 0x2C) {
                assert(model::skip_step_run(st) is Failed);
                st
            } else {
                let found = model::comma_run(st)->Ready_1;
                assert(model::peek_run(st) == model::token_run(found));
                if u[0] == 0x5D {
                    if comma && !st.settings.allow_trailing_comma {
                        assert(model::skip_step_run(st) is Failed);
                        st
                    } else {
                        let s = State {
                            peeked: Some(PeekedValue::ArrayEnd),
                            phase: PeekPhase::Start,
                            rest: u.skip(1),
                            ..found
                        };
                        assert(model::token_ahead_run(st) == Outcome::Ready(
                            PeekedValue::ArrayEnd,
                            s,
                        ));
                        lemma_recognized(st, PeekedValue::ArrayEnd, s);
                        lemma_leave(PeekedValue::ArrayEnd, s, StackValue::Array)
                    }
                } else {
                    lemma_token_of_value(found);
                    match model::token_run(found) {
                        Outcome::Ready(p, s) => {
                            lemma_recognized(st, p->0, s);
                            lemma_value_len(st.settings, room(st), u);
                            let ended = lemma_value(p->0, s);
                            match behind_value(st.settings, room(st), u) {
                                Some(r) => {
                                    lemma_outer_path(st.stack, s.path);
                                    lemma_items(ended)
                                },
                                None => st,
                            }
                        },
                        _ => {
                            assert(model::skip_step_run(st) is Failed);
                            st
                        },
                    }
                }
            }
        },
    }
}

/// Skipping a member name and the colon behind it follows the grammar. The result is the state
/// in which the token of the member value has been recognized.
#[verifier::spinoff_prover]
#[verifier::rlimit(60)]
proof fn lemma_name(st: State) -> (s: State)
    requires
        resting(st),
        st.peeked == Some(PeekedValue::NameStart),
        st.in_object(),
        st.expects_member_name,
        st.skip_depth->0 >= 1,
    ensures
        match behind_name(st.settings, st.rest) {
            Some(v) => {
                ||| {
                    &&& s.peeked is Some
                    &&& value_ahead(s.peeked->0, s)
                    &&& position::unconsumed(s) == v
                    &&& model::skip_rest_run(st) == model::skip_rest_run(s)
                    &&& s == (State {
                        peeked: s.peeked,
                        expects_member_name: false,
                        place: s.place,
                        path: s.path,
                        rest: s.rest,
                        ..st
                    })
                    &&& outer_path(s.path) == outer_path(st.path)
                }
                ||| {
                    &&& model::skip_rest_run(st) is Failed
                    &&& forall|room: Option<nat>|
                        #[trigger] behind_value(st.settings, room, v) is None
                }
            },
            None => model::skip_rest_run(st) is Failed,
        },
{
    let inside = model::name_start(st, Task::SkipName);
    assert(model::token_ahead_run(st) == Outcome::Ready(PeekedValue::NameStart, st));
    assert(model::skip_step_run(st) == Outcome::Ready((), inside));
    lemma_step(st, inside);
    lemma_text(inside);
    lemma_string_len(st.rest);
    match model::text_run(inside) {
        Outcome::Ready(_, read) => {
            let named = model::name_end(read);
            if let Some(steps) = st.path {
                assert(named.path->0.drop_last() =~= steps.drop_last());
            }
            assert(model::skip_step_run(inside) == Outcome::Ready((), named));
            lemma_step(inside, named);
            assert(named.expects_member_value());
            lemma_space(named);
            match trimmed(st.settings, named.rest) {
                None => {
                    assert(model::skip_step_run(named) is Failed);
                    st
                },
                Some(t) => {
                    lemma_space_len(st.settings.allow_comments, CommentMode::Outside, named.rest);
                    if t.len() == 0 || t[0] != 0x3A {
                        assert(model::skip_step_run(named) is Failed);
                        st
                    } else {
                        let found = model::space_run(named)->Ready_1;
                        let behind = State { phase: PeekPhase::Colon, ..found.moved(1, 1) };
                        assert(model::colon_run(named) == Outcome::Ready((), behind));
                        lemma_member_value(named, behind)
                    }
                },
            }
        },
        _ => st,
    }
}

/// Looking for the value behind the colon.
#[verifier::spinoff_prover]
#[verifier::rlimit(60)]
proof fn lemma_member_value(named: State, behind: State) -> (s: State)
    requires
        resting(named),
        named.peeked is None,
        named.in_object(),
        !named.expects_member_name,
        model::colon_run(named) == Outcome::Ready((), behind),
        behind == (State {
            phase: PeekPhase::Colon,
            place: behind.place,
            rest: behind.rest,
            ..named
        }),
        behind.rest.len() <= named.rest.len(),
    ensures
        match trimmed(named.settings, behind.rest) {
            Some(v) => {
                ||| {
                    &&& s.peeked is Some
                    &&& value_ahead(s.peeked->0, s)
                    &&& position::unconsumed(s) == v
                    &&& model::skip_rest_run(named) == model::skip_rest_run(s)
                    &&& s == (State {
                        peeked: s.peeked,
                        place: s.place,
                        rest: s.rest,
                        ..named
                    })
                }
                ||| {
                    &&& model::skip_rest_run(named) is Failed
                    &&& forall|room: Option<nat>|
                        #[trigger] behind_value(named.settings, room, v) is None
                }
            },
            None => model::skip_rest_run(named) is Failed,
        },
{
    assert(!behind.can_have_comma());
    lemma_find_behind_comma(behind);
    lemma_space_len(named.settings.allow_comments, CommentMode::Outside, behind.rest);
    match trimmed(named.settings, behind.rest) {
        None => {
            assert(model::skip_step_run(named) is Failed);
            named
        },
        Some(v) => {
            if v.len() == 0 || v[0] == 0x2C {
                assert(model::skip_step_run(named) is Failed);
                named
            } else {
                let found = model::comma_run(behind)->Ready_1;
                assert(model::peek_run(named) == model::token_run(found));
                lemma_token_of_value(found);
                match model::token_run(found) {
                    Outcome::Ready(p, s) => {
                        lemma_recognized(named, p->0, s);
                        s
                    },
                    _ => {
                        assert(model::skip_step_run(named) is Failed);
                        named
                    },
                }
            }
        },
    }
}

/// Skipping the remaining members of an object follows the grammar.
#[verifier::spinoff_prover]
#[verifier::rlimit(60)]
proof fn lemma_members(st: State) -> (after: State)
    requires
        inside_container(st, StackValue::Object),
    ensures
        match behind_members(st.settings, room(st), st.is_empty, st.rest) {
            Some(r) => container_ended(st, after, r) && model::skip_rest_run(st) == continued(after),
            None => model::skip_rest_run(st) is Failed,
        },
    decreases st.rest.len(), 1int,
{
    lemma_find_behind_comma(st);
    lemma_comma_len(st.settings, st.is_empty, st.rest);
    assert(st.can_have_comma() == !st.is_empty);
    assert(model::colon_run(st) == Outcome::Ready((), st));
    match behind_comma(st.settings, st.is_empty, st.rest) {
        None => {
            assert(model::skip_step_run(st) is Failed);
            st
        },
        Some((u, comma)) => {
            if u.len() == 0 || (!comma && u[0] == 0x2C) {
                assert(model::skip_step_run(st) is Failed);
                st
            } else {
                let found = model::comma_run(st)->Ready_1;
                assert(model::peek_run(st) == model::token_run(found));
                if u[0] == 0x7D {
                    if comma && !st.settings.allow_trailing_comma {
                        assert(model::skip_step_run(st) is Failed);
                        st
                    } else {
                        let s = State {
                            peeked: Some(PeekedValue::ObjectEnd),
                            phase: PeekPhase::Start,
                            rest: u.skip(1),
                            ..found
                        };
                        assert(model::token_ahead_run(st) == Outcome::Ready(
                            PeekedValue::ObjectEnd,
                            s,
                        ));
                        lemma_recognized(st, PeekedValue::ObjectEnd, s);
                        lemma_leave(PeekedValue::ObjectEnd, s, StackValue::Object)
                    }
                } else if u[0] != 0x22 || (!st.is_empty && !comma) {
                    assert(model::skip_step_run(st) is Failed);
                    st
                } else {
                    let s = State {
                        peeked: Some(PeekedValue::NameStart),
                        phase: PeekPhase::Start,
                        rest: u.skip(1),
                        ..found
                    };
                    assert(model::token_ahead_run(st) == Outcome::Ready(PeekedValue::NameStart, s));
                    lemma_recognized(st, PeekedValue::NameStart, s);
                    lemma_name_len(st.settings, u.skip(1));
                    let value = lemma_name(s);
                    match behind_name(st.settings, u.skip(1)) {
                        None => st,
                        Some(v) => {
                            if value.peeked is Some && value_ahead(value.peeked->0, value)
                                && position::unconsumed(value) == v && model::skip_rest_run(s)
                                == model::skip_rest_run(value) && value == (State {
                                peeked: value.peeked,
                                expects_member_name: false,
                                place: value.place,
                                path: value.path,
                                rest: value.rest,
                                ..s
                            }) && outer_path(value.path) == outer_path(s.path) {
                                lemma_value_len(st.settings, room(st), v);
                                let ended = lemma_value(value.peeked->0, value);
                                match behind_value(st.settings, room(st), v) {
                                    Some(r) => {
                                        lemma_outer_path(st.stack, value.path);
                                        lemma_members(ended)
                                    },
                                    None => st,
                                }
                            } else {
                                st
                            }
                        },
                    }
                }
            }
        },
    }
}

/// Skipping a value whose first token has been recognized follows the grammar: it consumes
/// exactly the value, or fails where there is none. Behind it the reader is inside the same
/// arrays and objects as before.
pub proof fn law_skip_value(p: PeekedValue, st: State)
    requires
        value_ahead(p, model::skip_start(st)),
        st.skip_depth is None,
    ensures
        match behind_value(st.settings, room(st), position::unconsumed(st)) {
            Some(r) => model::skip_run(st) matches Outcome::Ready(_, s) && value_ended(st, s, r),
            None => model::skip_run(st) is Failed,
        },
{
    let after = lemma_value(p, model::skip_start(st));
    if behind_value(st.settings, room(st), position::unconsumed(st)) is Some {
        assert(State { skip_depth: None, ..after } =~= (State {
            peeked: None,
            is_empty: false,
            expects_member_name: st.in_object(),
            place: after.place,
            path: model::path_behind_value(st.stack, st.path),
            rest: after.rest,
            ..st
        }));
    }
}

/// The state of a reader which has received all of a document.
pub open spec fn document_state(settings: ReaderSettings, document: Seq<u8>) -> State {
    model::extend(model::initial_state(settings), document, true)
}

/// Skipping the first value of a document follows the grammar.
pub proof fn law_skip_top_level_value(settings: ReaderSettings, document: Seq<u8>)
    requires
        document.len() <= u64::MAX,
    ensures
        match behind_top_level_value(settings, document) {
            Some(r) => model::skip_run(document_state(settings, document)) matches Outcome::Ready(
                _,
                s,
            ) && s.rest == r && s == (State {
                is_empty: false,
                place: s.place,
                rest: r,
                ..document_state(settings, document)
            }),
            None => model::skip_run(document_state(settings, document)) is Failed,
        },
{
    let st = document_state(settings, document);
    assert(st.rest =~= document);
    let start = model::skip_start(st);
    lemma_find_behind_comma(start);
    lemma_space_len(settings.allow_comments, CommentMode::Outside, document);
    assert(model::colon_run(start) == Outcome::Ready((), start));
    match trimmed(settings, document) {
        None => {
            assert(model::skip_step_run(start) is Failed);
        },
        Some(t) => {
            if t.len() == 0 || t[0] == 0x2C {
                assert(model::skip_step_run(start) is Failed);
            } else {
                let found = model::comma_run(start)->Ready_1;
                assert(model::peek_run(start) == model::token_run(found));
                lemma_token_of_value(found);
                match model::token_run(found) {
                    Outcome::Ready(p, s) => {
                        lemma_recognized(start, p->0, s);
                        let after = lemma_value(p->0, s);
                        assert(room(s) == top_level_room(settings));
                    },
                    _ => {
                        assert(model::skip_step_run(start) is Failed);
                    },
                }
            }
        },
    }
}

/// A document is accepted, that is its value can be skipped and nothing but whitespace follows,
/// if and only if it is a JSON document.
pub proof fn law_accepted_documents(settings: ReaderSettings, document: Seq<u8>)
    requires
        document.len() <= u64::MAX,
    ensures
        is_document(settings, document) <==> (model::skip_run(document_state(settings, document)) matches
            Outcome::Ready(_, s) && model::trailing_run(s) is Ready),
        !is_document(settings, document) ==> match model::skip_run(
            document_state(settings, document),
        ) {
            Outcome::Ready(_, s) => model::trailing_run(s) is Failed,
            Outcome::Failed(_, _) => true,
            Outcome::NeedMore(_) => false,
        },
{
    law_skip_top_level_value(settings, document);
    if let Some(r) = behind_top_level_value(settings, document) {
        let s = model::skip_run(document_state(settings, document))->Ready_1;
        lemma_space(s);
        if let Some(t) = trimmed(settings, r) {
            if t.len() == 0 {
                assert(t =~= Seq::<u8>::empty());
            }
        }
    }
}

/// Where comments are not allowed, whitespace consists of spaces, tabs and line breaks, and a
/// `/` may not follow it.
pub proof fn law_plain_whitespace(s: Seq<u8>)
    ensures
        s.len() > 0 && (s[0] == 0x20 || s[0] == 0x09 || s[0] == 0x0A || s[0] == 0x0D)
            ==> behind_space(false, CommentMode::Outside, s) == behind_space(
            false,
            CommentMode::Outside,
            s.skip(1),
        ),
        s.len() > 0 && s[0] == 0x2F ==> behind_space(false, CommentMode::Outside, s) is None,
        s.len() == 0 || !(s[0] == 0x20 || s[0] == 0x09 || s[0] == 0x0A || s[0] == 0x0D || s[0]
            == 0x2F) ==> behind_space(false, CommentMode::Outside, s) == Some(s),
{
    if s.len() > 1 && s[0] == 0x0D && s[1] == 0x0A {
        assert(s.skip(1)[0] == 0x0A);
        assert(s.skip(1).skip(1) =~= s.skip(2));
    }
}

proof fn lemma_number_scanned(scan: NumberScan, digits: Seq<u8>, r: Seq<u8>)
    requires
        number::scan_from(scan, digits) matches Some(end) && number::number_complete(end.phase),
        is_boundary(r),
    ensures
        behind_number(scan, digits + r) == Some(r),
    decreases digits.len(),
{
    let s = digits + r;
    if digits.len() == 0 {
        assert(s =~= r);
    } else {
        assert(s[0] == digits[0]);
        assert(s.skip(1) =~= digits.skip(1) + r);
        lemma_number_scanned(number::number_next(scan, s[0])->0, digits.skip(1), r);
    }
}

proof fn lemma_number_taken(scan: NumberScan, s: Seq<u8>)
    ensures
        behind_number(scan, s) matches Some(r) ==> {
            let n = s.len() - r.len();
            &&& n >= 0
            &&& r == s.skip(n)
            &&& is_boundary(r)
            &&& number::scan_from(scan, s.take(n)) matches Some(end) && number::number_complete(
                end.phase,
            )
        },
    decreases s.len(),
{
    if s.len() > 0 && number::number_next(scan, s[0]) is Some {
        let next = number::number_next(scan, s[0])->0;
        lemma_number_taken(next, s.skip(1));
        if let Some(r) = behind_number(next, s.skip(1)) {
            let n = s.len() - r.len();
            assert(s.skip(1).skip(n - 1) =~= s.skip(n));
            assert(s.take(n).skip(1) =~= s.skip(1).take(n - 1));
        }
    } else {
        assert(s.skip(0) =~= s);
        assert(s.take(0) =~= Seq::<u8>::empty());
    }
}

/// What is read as number is a JSON number, followed by a separator or the end of the input;
/// and every JSON number which is followed so is read.
pub proof fn law_number_grammar(s: Seq<u8>, digits: Seq<u8>, r: Seq<u8>)
    ensures
        behind_number(number::number_start(), s) matches Some(rest) ==> rest.len() <= s.len()
            && number::is_json_number(s.take(s.len() - rest.len())) && is_boundary(rest),
        number::is_json_number(digits) && is_boundary(r) ==> behind_number(
            number::number_start(),
            digits + r,
        ) == Some(r),
{
    lemma_number_taken(number::number_start(), s);
    if let Some(rest) = behind_number(number::number_start(), s) {
        number::law_accepts_json_numbers(s.take(s.len() - rest.len()));
    }
    number::law_accepts_json_numbers(digits);
    if number::is_json_number(digits) && is_boundary(r) {
        lemma_number_scanned(number::number_start(), digits, r);
    }
}

/// Reading a string consumes exactly its content and the closing `"`, or fails where there is
/// no string.
pub proof fn law_read_string(st: State)
    requires
        st.eof,
    ensures
        match behind_string(st.rest) {
            Some(r) => model::string_rest_run(st) matches Outcome::Ready(_, s) && s.rest == r,
            None => model::string_rest_run(st) is Failed,
        },
{
    lemma_text(st);
}

/// Reading a number of which some characters have been read already.
proof fn lemma_number_read(st: State)
    requires
        st.eof,
        st.task is Number,
        number::scan_from(number::number_start(), st.text) == Some(model::number_scan(st.task)),
    ensures
        behind_number(model::number_scan(st.task), st.rest) matches Some(r) ==> {
            let all = st.text + st.rest.take(st.rest.len() - r.len());
            &&& r.len() <= st.rest.len()
            &&& number::scan_from(number::number_start(), all) matches Some(end) && if st.settings.restrict_number_values
                && number::exceeds_restrictions(end) {
                model::number_rest_run(st) matches Outcome::Failed(e, _) && e
                    == (ErrorModel::UnsupportedNumberValue {
                    number: model::text_chars(all),
                    location: st.position(),
                })
            } else {
                model::number_rest_run(st) matches Outcome::Ready(text, s) && text == all && s.rest
                    == r
            }
        },
        behind_number(model::number_scan(st.task), st.rest) is None
            ==> model::number_rest_run(st) is Failed,
    decreases st.rest.len(),
{
    if st.rest.len() > 0 && number::number_next(
        model::number_scan(st.task),
        st.rest[0],
    ) is Some {
        let scan = number::number_next(model::number_scan(st.task), st.rest[0])->0;
        let next = model::number_moved(st, scan);
        number::lemma_scan_push(number::number_start(), st.text, st.rest[0]);
        lemma_number_len(scan, next.rest);
        lemma_number_read(next);
        if let Some(r) = behind_number(scan, next.rest) {
            let n = st.rest.len() - r.len();
            assert(next.text + next.rest.take(n - 1) =~= st.text + st.rest.take(n));
        }
    } else {
        assert(st.text + st.rest.take(0) =~= st.text);
    }
}

/// A number is returned as it is written. Where the settings restrict numbers, those with an
/// exponent below -99 or above 99, or with more than 100 characters, are rejected; no other
/// number is.
pub proof fn law_read_number(st: State)
    requires
        st.eof,
        st.task == Task::Number(number::number_start()),
        st.text == Seq::<u8>::empty(),
        st.rest.len() <= u64::MAX,
    ensures
        match behind_number(number::number_start(), st.rest) {
            Some(r) => {
                let digits = st.rest.take(st.rest.len() - r.len());
                &&& number::is_json_number(digits)
                &&& if st.settings.restrict_number_values && (number::exponent_magnitude(digits) > 99
                    || digits.len() > 100) {
                    model::number_value_run(st) matches Outcome::Failed(e, _) && e
                        == (ErrorModel::UnsupportedNumberValue {
                        number: model::text_chars(digits),
                        location: st.position(),
                    })
                } else {
                    model::number_value_run(st) matches Outcome::Ready(result, s) && result
                        == model::text_chars(digits) && s.rest == r
                }
            },
            None => model::number_value_run(st) is Failed,
        },
{
    lemma_number_read(st);
    lemma_number_len(number::number_start(), st.rest);
    if let Some(r) = behind_number(number::number_start(), st.rest) {
        let digits = st.rest.take(st.rest.len() - r.len());
        assert(st.text + digits =~= digits);
        law_number_grammar(st.rest, digits, r);
        number::law_restriction(digits);
    }
}

} // verus!
