//! What the operations of the reader mean.
//!
//! A [`State`] is everything the reader knows, including the input which is available but
//! has not been processed. Each operation is a function from a state to an [`Outcome`].

use vstd::prelude::*;
use vstd::utf8::*;

use crate::number;
use crate::number::NumberScan;
use crate::space;
use crate::space::{CommentMode, SpaceUnit};
use crate::text;
use crate::text::TextUnit;
use crate::token;
use crate::token::TokenUnit;
use crate::types::{
    ErrorKind, ErrorModel, Fault, LinePosition, PathStep, PeekedValue, Place, PositionModel,
    ReaderSettings, StackValue, SyntaxErrorKind, UnexpectedStructureKind, ValueType,
};

verus! {

/// How far the way to the next token has been covered.
#[derive(Clone, Copy, PartialEq, Eq, Structural, Debug)]
pub enum PeekPhase {
    /// Nothing has been found yet.
    Start,
    /// The colon behind a member name has been consumed.
    Colon,
    /// The comma in front of an array item or object member has been consumed; it was found at
    /// the given place.
    Comma(Place),
}

/// The value or name which is being read.
#[derive(Clone, Copy, PartialEq, Eq, Structural, Debug)]
pub enum Task {
    /// None.
    Idle,
    /// A member name.
    Name,
    /// A member name which the caller does not want to know.
    SkipName,
    /// A string.
    Text,
    /// A string which the caller does not want to know.
    SkipText,
    /// A number.
    Number(NumberScan),
    /// A number which the caller does not want to know.
    SkipNumber(NumberScan),
}

/// Everything the reader knows.
#[verifier::ext_equal]
pub struct State {
    /// The token which has been recognized but not consumed.
    pub peeked: Option<PeekedValue>,
    /// Whether the current array or object is empty, or at top-level whether no value has been
    /// consumed yet.
    pub is_empty: bool,
    /// Whether a member name or the end of the object comes next.
    pub expects_member_name: bool,
    /// The arrays and objects which have been entered, the outermost first.
    pub stack: Seq<StackValue>,
    /// Whether a string is being read piecewise.
    pub string_reader_active: bool,
    /// Where the reader is.
    pub place: Place,
    /// The JSON path, if it is tracked.
    pub path: Option<Seq<PathStep>>,
    pub settings: ReaderSettings,
    /// Whether the reader is inside a comment.
    pub comment: CommentMode,
    pub phase: PeekPhase,
    pub task: Task,
    /// The content of the name or value which is being read, as far as it has been read.
    pub text: Seq<u8>,
    /// While a value is being skipped, the number of arrays and objects which have been
    /// entered for that.
    pub skip_depth: Option<u64>,
    /// The input which is available and not processed.
    pub rest: Seq<u8>,
    /// Whether `rest` is all the input there is.
    pub eof: bool,
}

/// Whether the reader stands directly in front of input of which it is not decided what it is:
/// all whitespace, comments, tokens and characters in front of it have been processed.
pub open spec fn undecided(st: State) -> bool {
    &&& !st.eof
    &&& st.rest.len() < text::LONGEST_UNIT
    &&& match st.task {
        Task::Idle => if st.string_reader_active {
            text::text_unit(st.rest, false) is Incomplete
        } else {
            ||| space_here(st) is Incomplete
            ||| space_here(st) is Stop && token::token_unit(
                st.expects_member_name,
                st.in_array(),
                st.rest,
                false,
            ) is Incomplete
        },
        Task::Number(_) | Task::SkipNumber(_) => st.rest.len() == 0,
        _ => text::text_unit(st.rest, false) is Incomplete,
    }
}

/// What an operation leads to.
pub enum Outcome<T> {
    /// The available input does not decide it. The state is the one in which the operation waits
    /// for more.
    NeedMore(State),
    /// A result, and the state behind the operation.
    Ready(T, State),
    /// A failure, and the state behind it.
    Failed(ErrorModel, State),
}

/// The state of a reader which has not received any input.
pub open spec fn initial_state(settings: ReaderSettings) -> State {
    State {
        peeked: None,
        is_empty: true,
        expects_member_name: false,
        stack: Seq::empty(),
        string_reader_active: false,
        place: Place { line: 0, column: 0, byte_pos: 0 },
        path: if settings.track_path {
            Some(Seq::empty())
        } else {
            None
        },
        settings,
        comment: CommentMode::Outside,
        phase: PeekPhase::Start,
        task: Task::Idle,
        text: Seq::empty(),
        skip_depth: None,
        rest: Seq::empty(),
        eof: false,
    }
}

/// The state when `more` arrives as input. `eof` tells that this is all the input there is.
/// Nothing arrives behind the end of the input.
pub open spec fn extend(st: State, more: Seq<u8>, eof: bool) -> State {
    if st.eof {
        st
    } else {
        State { rest: st.rest + more, eof, ..st }
    }
}

/// The outcome when `more` arrives as input which the operation does not look at.
pub open spec fn extend_outcome<T>(o: Outcome<T>, more: Seq<u8>, eof: bool) -> Outcome<T> {
    match o {
        Outcome::NeedMore(st) => Outcome::NeedMore(extend(st, more, eof)),
        Outcome::Ready(v, st) => Outcome::Ready(v, extend(st, more, eof)),
        Outcome::Failed(e, st) => Outcome::Failed(e, extend(st, more, eof)),
    }
}

/// Whether an operation can be left in state `a` and taken up again in state `b`: whatever
/// input arrives, the outcome is the same.
pub open spec fn continues<T>(run: spec_fn(State) -> Outcome<T>, a: State, b: State) -> bool {
    forall|more: Seq<u8>, eof: bool|
        run(#[trigger] extend(a, more, eof)) == run(extend(b, more, eof))
}

impl State {
    pub open spec fn in_array(self) -> bool {
        self.stack.len() > 0 && self.stack.last() == StackValue::Array
    }

    pub open spec fn in_object(self) -> bool {
        self.stack.len() > 0 && self.stack.last() == StackValue::Object
    }

    /// Whether a member name has been consumed and its value has not.
    pub open spec fn expects_member_value(self) -> bool {
        self.in_object() && !self.expects_member_name
    }

    /// Whether a top-level value has been consumed.
    pub open spec fn behind_top_level(self) -> bool {
        !self.is_empty && self.stack.len() == 0
    }

    /// Whether a comma is needed in front of the next array item or object member.
    pub open spec fn can_have_comma(self) -> bool {
        !self.is_empty && (self.in_array() || self.expects_member_name)
    }

    /// The position which errors report.
    pub open spec fn position(self) -> PositionModel {
        PositionModel {
            path: self.path,
            line_pos: Some(LinePosition { line: self.place.line, column: self.place.column }),
            data_pos: Some(self.place.byte_pos),
        }
    }

    /// Whether the content of the current name or value is collected.
    pub open spec fn collects(self) -> bool {
        match self.task {
            Task::Name => true,
            Task::SkipName => self.path is Some,
            Task::Text => true,
            Task::Number(_) => true,
            _ => false,
        }
    }

    /// The state behind `len` bytes which take up `columns` columns.
    pub open spec fn moved(self, len: int, columns: int) -> State {
        State {
            place: self.place.forward(columns, len),
            rest: self.rest.skip(len),
            ..self
        }
    }

    /// The state when the current name or value is done with.
    pub open spec fn idle(self) -> State {
        State { task: Task::Idle, text: Seq::empty(), ..self }
    }
}

/// The number of bytes which have been taken from the input but do not count for the place
/// of the reader yet.
pub open spec fn uncounted(st: State) -> int {
    peeked_len(st) + match st.task {
        Task::Number(scan) => scan.len as int,
        Task::SkipNumber(scan) => scan.len as int,
        _ => 0,
    }
}

/// The number of bytes which have been received, as far as they count for the place of the
/// reader or may still do so.
pub open spec fn received(st: State) -> int {
    st.place.byte_pos + uncounted(st) + st.rest.len()
}

pub open spec fn place_valid(place: Place) -> bool {
    place.line <= place.byte_pos && place.column <= place.byte_pos
}

/// Whether a path has a step of the right sort for each array and object which has been
/// entered, and its indices are below `limit`.
pub open spec fn path_valid(path: Seq<PathStep>, stack: Seq<StackValue>, limit: int) -> bool {
    &&& path.len() == stack.len()
    &&& forall|i: int|
        0 <= i < path.len() ==> match #[trigger] path[i] {
            PathStep::Item(index) => stack[i] == StackValue::Array && index < limit,
            PathStep::Member(_) => stack[i] == StackValue::Object,
        }
}

/// Whether the arrays and objects which have been entered, and the path, fit to a place.
pub open spec fn structure_valid(st: State, place: Place) -> bool {
    &&& place_valid(place)
    &&& st.stack.len() <= place.byte_pos
    &&& st.path matches Some(steps) ==> path_valid(steps, st.stack, place.byte_pos as int)
}

/// Whether the arrays and objects which have been entered, and the path, fit already to the
/// place in front of the last byte.
pub open spec fn structure_valid_before(st: State) -> bool {
    &&& st.stack.len() <= st.place.byte_pos - 1
    &&& st.path matches Some(steps) ==> path_valid(steps, st.stack, st.place.byte_pos - 1)
}

/// Whether the token which has been recognized may stand where the reader is.
pub open spec fn peeked_valid(st: State) -> bool {
    st.peeked matches Some(p) ==> {
        &&& st.phase == PeekPhase::Start
        &&& st.task == Task::Idle
        &&& !st.string_reader_active
        &&& p == PeekedValue::ArrayEnd ==> st.in_array()
        &&& st.expects_member_name <==> p == PeekedValue::NameStart || p == PeekedValue::ObjectEnd
    }
}

pub open spec fn phase_valid(st: State) -> bool {
    match st.phase {
        PeekPhase::Start => true,
        PeekPhase::Colon => st.task == Task::Idle && st.expects_member_value(),
        PeekPhase::Comma(place) => {
            &&& st.task == Task::Idle
            &&& st.can_have_comma()
            &&& place.byte_pos <= st.place.byte_pos
            &&& structure_valid(st, place)
        },
    }
}

/// Whether a scan counts its bytes.
pub open spec fn scan_valid(scan: NumberScan) -> bool {
    scan.exponent_digits <= scan.len && (number::number_complete(scan.phase) ==> scan.len > 0)
}

/// Whether the content which has been read belongs to the current task.
pub open spec fn task_valid(st: State) -> bool {
    &&& st.task != Task::Idle ==> !st.expects_member_name && !st.string_reader_active
    &&& match st.task {
        Task::Name => st.in_object() && valid_utf8(st.text),
        Task::SkipName => st.in_object() && valid_utf8(st.text),
        Task::Text => valid_utf8(st.text),
        Task::Number(scan) => scan_valid(scan) && number::scan_from(
            number::number_start(),
            st.text,
        ) == Some(scan),
        Task::SkipNumber(scan) => scan_valid(scan),
        _ => true,
    }
    &&& !st.collects() ==> st.text == Seq::<u8>::empty()
}

pub open spec fn skip_valid(st: State) -> bool {
    st.skip_depth matches Some(depth) ==> depth <= st.stack.len() && !st.string_reader_active
        && match st.task {
        Task::Name => false,
        Task::Text => false,
        Task::Number(_) => false,
        _ => true,
    }
}

/// What holds of the reader at all times.
pub open spec fn valid(st: State) -> bool {
    &&& structure_valid(st, st.place)
    &&& received(st) <= u64::MAX
    &&& st.settings.max_nesting_depth matches Some(max) ==> st.stack.len() <= max
    &&& st.path is Some <==> st.settings.track_path
    &&& st.expects_member_name ==> st.in_object()
    &&& st.string_reader_active ==> !st.expects_member_name && st.phase == PeekPhase::Start
    &&& peeked_valid(st)
    &&& phase_valid(st)
    &&& task_valid(st)
    &&& skip_valid(st)
}

/// The error for a syntax error where the reader is.
pub open spec fn syntax_error(kind: SyntaxErrorKind, st: State) -> ErrorModel {
    ErrorModel::Syntax { kind, location: st.position() }
}

pub open spec fn structure_error(kind: UnexpectedStructureKind, st: State) -> ErrorModel {
    ErrorModel::UnexpectedStructure { kind, location: st.position() }
}

/// The error for input which is rejected where the reader is.
pub open spec fn fault_error(fault: Fault, st: State) -> ErrorModel {
    match fault {
        Fault::Syntax(kind) => syntax_error(kind, st),
        Fault::InvalidUtf8 => ErrorModel::Io {
            kind: ErrorKind::InvalidData,
            message: "invalid UTF-8 data"@,
            location: st.position(),
        },
    }
}

// Whitespace and comments
/// What the input starts with, where whitespace and comments may stand.
pub open spec fn space_here(st: State) -> SpaceUnit {
    space::space_unit(st.comment, st.settings.allow_comments, st.rest, st.eof)
}

/// The state behind a piece of whitespace or comment.
pub open spec fn space_moved(
    st: State,
    len: usize,
    columns: usize,
    line_break: bool,
    mode: CommentMode,
) -> State {
    State {
        place: if line_break {
            st.place.next_line(len as int)
        } else {
            st.place.forward(columns as int, len as int)
        },
        comment: mode,
        rest: st.rest.skip(len as int),
        ..st
    }
}

/// Skips whitespace and comments. The result is the byte behind them, `None` at the end of
/// the input.
pub open spec fn space_run(st: State) -> Outcome<Option<u8>>
    decreases
            st.rest.len(),
            if st.comment == CommentMode::Line {
                1int
            } else {
                0int
            },
{
    match space_here(st) {
        SpaceUnit::Incomplete => Outcome::NeedMore(st),
        SpaceUnit::Stop => Outcome::Ready(Some(st.rest[0]), st),
        SpaceUnit::End => Outcome::Ready(None, State { comment: CommentMode::Outside, ..st }),
        SpaceUnit::Fault { fault, ahead } => {
            let taken = space::fault_len(st.comment, st.settings.allow_comments, st.rest, fault);
            let s = State {
                place: st.place.forward(ahead as int, ahead as int),
                comment: CommentMode::Outside,
                rest: st.rest.skip(taken),
                ..st
            };
            Outcome::Failed(fault_error(fault, s), s)
        },
        SpaceUnit::Move { len, columns, line_break, mode } => space_run(
            space_moved(st, len, columns, line_break, mode),
        ),
    }
}

/// The place which is reported when no further input can be obtained from the source. A line
/// break and the first character of what starts or ends a comment are counted, though it
/// depends on the next byte what becomes of them.
pub open spec fn source_error_place(st: State) -> Place {
    if st.task == Task::Idle && !st.string_reader_active && st.rest.len() == 1 && space_here(
        st,
    ) is Incomplete {
        if st.rest[0] == 0x0D {
            st.place.next_line(1)
        } else if st.rest[0] < 0x80 {
            st.place.forward(1, 1)
        } else {
            st.place
        }
    } else {
        st.place
    }
}

/// The state when no further input could be obtained from the source. The operation which
/// needed it is given up, together with what has been received and processed for it.
pub open spec fn source_failed(st: State) -> State {
    State {
        place: source_error_place(st),
        comment: CommentMode::Outside,
        phase: PeekPhase::Start,
        skip_depth: None,
        rest: Seq::empty(),
        ..st.idle()
    }
}

// Finding the next token
/// Consumes the colon behind a member name, if it has to come next.
pub open spec fn colon_run(st: State) -> Outcome<()> {
    if st.phase == PeekPhase::Start && st.expects_member_value() {
        match space_run(st) {
            Outcome::NeedMore(s) => Outcome::NeedMore(s),
            Outcome::Failed(e, s) => Outcome::Failed(e, s),
            Outcome::Ready(byte, s) => if byte == Some(0x3Au8) {
                Outcome::Ready((), State { phase: PeekPhase::Colon, ..s.moved(1, 1) })
            } else {
                Outcome::Failed(syntax_error(SyntaxErrorKind::MissingColon, s), s)
            },
        }
    } else {
        Outcome::Ready((), st)
    }
}

/// The state when the next token could not be found. A colon or comma in front of it is
/// forgotten.
pub open spec fn token_missed(st: State) -> State {
    State { phase: PeekPhase::Start, ..st }
}

/// Finds the token behind a comma.
pub open spec fn behind_comma_run(st: State) -> Outcome<bool> {
    match space_run(st) {
        Outcome::NeedMore(s) => Outcome::NeedMore(s),
        Outcome::Failed(e, s) => Outcome::Failed(e, token_missed(s)),
        Outcome::Ready(Some(_), s) => Outcome::Ready(true, s),
        Outcome::Ready(None, s) => Outcome::Failed(
            syntax_error(SyntaxErrorKind::IncompleteDocument, s),
            token_missed(s),
        ),
    }
}

/// Consumes the comma in front of the next token, if there is one. The result tells whether
/// a token follows.
pub open spec fn comma_run(st: State) -> Outcome<bool> {
    if st.phase is Comma {
        behind_comma_run(st)
    } else {
        match space_run(st) {
            Outcome::NeedMore(s) => Outcome::NeedMore(s),
            Outcome::Failed(e, s) => Outcome::Failed(e, token_missed(s)),
            Outcome::Ready(None, s) => Outcome::Ready(false, token_missed(s)),
            Outcome::Ready(Some(byte), s) => if byte != 0x2C {
                Outcome::Ready(true, s)
            } else if !s.can_have_comma() {
                Outcome::Failed(
                    syntax_error(SyntaxErrorKind::UnexpectedComma, s),
                    token_missed(s),
                )
            } else {
                behind_comma_run(State { phase: PeekPhase::Comma(s.place), ..s.moved(1, 1) })
            },
        }
    }
}

/// Recognizes the token which the input starts with.
pub open spec fn token_run(st: State) -> Outcome<Option<PeekedValue>> {
    match token::token_unit(st.expects_member_name, st.in_array(), st.rest, st.eof) {
        TokenUnit::Incomplete => Outcome::NeedMore(st),
        TokenUnit::Fault(kind) => {
            let taken = token::fault_len(st.expects_member_name, st.in_array(), st.rest, kind);
            Outcome::Failed(
                syntax_error(kind, st),
                State { rest: st.rest.skip(taken), ..token_missed(st) },
            )
        },
        TokenUnit::Token { value, len } => {
            let is_end = value == PeekedValue::ArrayEnd || value == PeekedValue::ObjectEnd;
            if is_end && st.phase is Comma && !st.settings.allow_trailing_comma {
                // Report location of comma
                let s = State { place: st.phase->Comma_0, ..st };
                Outcome::Failed(
                    syntax_error(SyntaxErrorKind::TrailingCommaNotEnabled, s),
                    token_missed(s),
                )
            } else if !is_end && st.can_have_comma() && !(st.phase is Comma) {
                Outcome::Failed(
                    syntax_error(SyntaxErrorKind::MissingComma, st),
                    State { rest: st.rest.skip(token::literal_len(value)), ..token_missed(st) },
                )
            } else {
                Outcome::Ready(
                    Some(value),
                    State {
                        peeked: Some(value),
                        phase: PeekPhase::Start,
                        rest: st.rest.skip(len as int),
                        ..st
                    },
                )
            }
        },
    }
}

/// Recognizes the next token without consuming it; `None` at the end of the input.
pub open spec fn peek_run(st: State) -> Outcome<Option<PeekedValue>> {
    if st.peeked is Some {
        Outcome::Ready(st.peeked, st)
    } else {
        match colon_run(st) {
            Outcome::NeedMore(s) => Outcome::NeedMore(s),
            Outcome::Failed(e, s) => Outcome::Failed(e, s),
            Outcome::Ready(_, s) => match comma_run(s) {
                Outcome::NeedMore(s) => Outcome::NeedMore(s),
                Outcome::Failed(e, s2) => Outcome::Failed(e, s2),
                Outcome::Ready(false, s2) => Outcome::Ready(None, s2),
                Outcome::Ready(true, s2) => token_run(s2),
            },
        }
    }
}

/// What is answered when a token is needed but the input has ended.
pub open spec fn eof_error(st: State) -> ErrorModel {
    if st.behind_top_level() && st.settings.allow_multiple_top_level {
        structure_error(UnexpectedStructureKind::FewerElementsThanExpected, st)
    } else {
        syntax_error(SyntaxErrorKind::IncompleteDocument, st)
    }
}

/// Recognizes the next token without consuming it, where there has to be one.
pub open spec fn token_ahead_run(st: State) -> Outcome<PeekedValue> {
    match peek_run(st) {
        Outcome::NeedMore(s) => Outcome::NeedMore(s),
        Outcome::Failed(e, s) => Outcome::Failed(e, s),
        Outcome::Ready(Some(p), s) => Outcome::Ready(p, s),
        Outcome::Ready(None, s) => Outcome::Failed(eof_error(s), s),
    }
}

/// The type of the value which starts with the token; `None` for the end of an array or
/// object and for a member name.
pub open spec fn value_type(p: PeekedValue) -> Option<ValueType> {
    match p {
        PeekedValue::ObjectStart => Some(ValueType::Object),
        PeekedValue::ArrayStart => Some(ValueType::Array),
        PeekedValue::StringStart => Some(ValueType::String),
        PeekedValue::NumberStart => Some(ValueType::Number),
        PeekedValue::Null => Some(ValueType::Null),
        PeekedValue::BooleanTrue => Some(ValueType::Boolean),
        PeekedValue::BooleanFalse => Some(ValueType::Boolean),
        _ => None,
    }
}

/// Whether the token is the end of an array or object.
pub open spec fn is_end(p: PeekedValue) -> bool {
    p == PeekedValue::ArrayEnd || p == PeekedValue::ObjectEnd
}

/// The type of the next value.
pub open spec fn type_ahead_run(st: State) -> Outcome<ValueType> {
    match token_ahead_run(st) {
        Outcome::NeedMore(s) => Outcome::NeedMore(s),
        Outcome::Failed(e, s) => Outcome::Failed(e, s),
        Outcome::Ready(p, s) => match value_type(p) {
            Some(ty) => Outcome::Ready(ty, s),
            None => Outcome::Failed(
                structure_error(UnexpectedStructureKind::FewerElementsThanExpected, s),
                s,
            ),
        },
    }
}

// Consuming tokens
/// The state behind the token which has been recognized.
pub open spec fn consume_token(st: State) -> State {
    let len = token::token_len(st.peeked->0);
    State { peeked: None, place: st.place.forward(len, len), ..st }
}

/// The path behind a value: the index of the next array item.
pub open spec fn path_behind_value(
    stack: Seq<StackValue>,
    path: Option<Seq<PathStep>>,
) -> Option<Seq<PathStep>> {
    match path {
        Some(steps) => if stack.len() > 0 && stack.last() == StackValue::Array && steps.len() > 0 {
            Some(steps.update(steps.len() - 1, PathStep::Item((steps.last()->Item_0 + 1) as u64)))
        } else {
            Some(steps)
        },
        None => None,
    }
}

/// The state behind a value.
pub open spec fn value_end(st: State) -> State {
    State {
        path: path_behind_value(st.stack, st.path),
        expects_member_name: st.expects_member_name || st.in_object(),
        is_empty: false,
        ..st
    }
}

/// The state behind an array or object which has been left.
pub open spec fn container_end(st: State) -> State {
    value_end(
        State {
            stack: st.stack.drop_last(),
            path: match st.path {
                Some(steps) => Some(steps.drop_last()),
                None => None,
            },
            expects_member_name: false,
            ..st
        },
    )
}

/// What a member of an object is called as long as its name has not been read.
pub open spec fn unknown_name() -> Seq<char> {
    "<?>"@
}

/// The state inside an array or object which has been entered.
pub open spec fn container_start(st: State, kind: StackValue) -> State {
    State {
        stack: st.stack.push(kind),
        is_empty: true,
        path: match st.path {
            Some(steps) => Some(
                steps.push(
                    match kind {
                        StackValue::Array => PathStep::Item(0),
                        StackValue::Object => PathStep::Member(unknown_name()),
                    },
                ),
            ),
            None => None,
        },
        expects_member_name: kind == StackValue::Object,
        ..st
    }
}

/// Whether entering one more array or object would exceed the limit of the settings.
pub open spec fn too_deep(st: State) -> bool {
    st.settings.max_nesting_depth matches Some(max) && st.stack.len() >= max
}

pub open spec fn too_deep_error(st: State) -> ErrorModel {
    ErrorModel::MaxNestingDepthExceeded {
        max_nesting_depth: st.settings.max_nesting_depth->0,
        location: st.position(),
    }
}

/// Consumes the token of a value which has to have the expected type.
pub open spec fn expect_run(st: State, expected: ValueType, check_depth: bool) -> Outcome<
    PeekedValue,
> {
    match token_ahead_run(st) {
        Outcome::NeedMore(s) => Outcome::NeedMore(s),
        Outcome::Failed(e, s) => Outcome::Failed(e, s),
        Outcome::Ready(p, s) => match value_type(p) {
            None => Outcome::Failed(
                structure_error(UnexpectedStructureKind::FewerElementsThanExpected, s),
                s,
            ),
            Some(actual) => if actual != expected {
                Outcome::Failed(
                    ErrorModel::UnexpectedValueType { expected, actual, location: s.position() },
                    s,
                )
            } else if check_depth && too_deep(s) {
                Outcome::Failed(too_deep_error(s), s)
            } else {
                Outcome::Ready(p, consume_token(s))
            },
        },
    }
}

/// Enters an array or object.
pub open spec fn begin_run(st: State, kind: StackValue) -> Outcome<()> {
    let expected = match kind {
        StackValue::Array => ValueType::Array,
        StackValue::Object => ValueType::Object,
    };
    match expect_run(st, expected, true) {
        Outcome::NeedMore(s) => Outcome::NeedMore(s),
        Outcome::Failed(e, s) => Outcome::Failed(e, s),
        Outcome::Ready(_, s) => Outcome::Ready((), container_start(s, kind)),
    }
}

/// Leaves the current array or object.
pub open spec fn end_run(st: State) -> Outcome<()> {
    match token_ahead_run(st) {
        Outcome::NeedMore(s) => Outcome::NeedMore(s),
        Outcome::Failed(e, s) => Outcome::Failed(e, s),
        Outcome::Ready(p, s) => if is_end(p) {
            Outcome::Ready((), container_end(consume_token(s)))
        } else {
            Outcome::Failed(
                structure_error(UnexpectedStructureKind::MoreElementsThanExpected, s),
                s,
            )
        },
    }
}

/// Whether another array item, object member or top-level value follows.
pub open spec fn has_next_run(st: State) -> Outcome<bool> {
    match peek_run(st) {
        Outcome::NeedMore(s) => Outcome::NeedMore(s),
        Outcome::Failed(e, s) => Outcome::Failed(e, s),
        Outcome::Ready(Some(p), s) => Outcome::Ready(!is_end(p), s),
        Outcome::Ready(None, s) => if s.stack.len() == 0 {
            Outcome::Ready(false, s)
        } else {
            Outcome::Failed(eof_error(s), s)
        },
    }
}

/// Reads a boolean.
pub open spec fn bool_run(st: State) -> Outcome<bool> {
    match expect_run(st, ValueType::Boolean, false) {
        Outcome::NeedMore(s) => Outcome::NeedMore(s),
        Outcome::Failed(e, s) => Outcome::Failed(e, s),
        Outcome::Ready(p, s) => Outcome::Ready(p == PeekedValue::BooleanTrue, value_end(s)),
    }
}

/// Reads a null.
pub open spec fn null_run(st: State) -> Outcome<()> {
    match expect_run(st, ValueType::Null, false) {
        Outcome::NeedMore(s) => Outcome::NeedMore(s),
        Outcome::Failed(e, s) => Outcome::Failed(e, s),
        Outcome::Ready(_, s) => Outcome::Ready((), value_end(s)),
    }
}

// Strings and member names
/// The state behind a character or escape sequence of a string.
pub open spec fn text_moved(st: State, unit: TextUnit) -> State {
    State {
        text: if st.collects() {
            st.text + text::unit_bytes(unit, st.rest)
        } else {
            st.text
        },
        ..st.moved(text::unit_len(unit), text::unit_columns(unit))
    }
}

/// Reads the content of a string or member name up to and including the closing `"`.
pub open spec fn text_run(st: State) -> Outcome<()>
    decreases st.rest.len(),
    via text_run_decreases
{
    let unit = text::text_unit(st.rest, st.eof);
    match unit {
        TextUnit::Incomplete => Outcome::NeedMore(st),
        TextUnit::Fault(fault) => Outcome::Failed(
            fault_error(fault, st),
            State { rest: st.rest.skip(text::malformed_len(st.rest, 0)), ..st.idle() },
        ),
        TextUnit::End => Outcome::Ready((), st.moved(1, 1)),
        _ => text_run(text_moved(st, unit)),
    }
}

#[via_fn]
proof fn text_run_decreases(st: State) {
    text::lemma_text_unit(st.rest, st.eof);
}

/// The characters which valid UTF-8 text consists of.
pub open spec fn text_chars(bytes: Seq<u8>) -> Seq<char> {
    decode_utf8(bytes)
}

/// The state behind a member name.
pub open spec fn name_end(st: State) -> State {
    State {
        path: match st.path {
            Some(steps) => if steps.len() > 0 {
                Some(steps.update(steps.len() - 1, PathStep::Member(text_chars(st.text))))
            } else {
                Some(steps)
            },
            None => None,
        },
        ..st.idle()
    }
}

/// The state behind the opening `"` of a member name.
pub open spec fn name_start(st: State, task: Task) -> State {
    State { task, text: Seq::empty(), expects_member_name: false, ..consume_token(st) }
}

/// Reads up to the opening `"` of a member name.
pub open spec fn before_name_run(st: State, task: Task) -> Outcome<()> {
    match has_next_run(st) {
        Outcome::NeedMore(s) => Outcome::NeedMore(s),
        Outcome::Failed(e, s) => Outcome::Failed(e, s),
        Outcome::Ready(false, s) => Outcome::Failed(
            structure_error(UnexpectedStructureKind::FewerElementsThanExpected, s),
            s,
        ),
        Outcome::Ready(true, s) => Outcome::Ready((), name_start(s, task)),
    }
}

/// Reads the remainder of a member name.
pub open spec fn name_rest_run(st: State) -> Outcome<Seq<char>> {
    match text_run(st) {
        Outcome::NeedMore(s) => Outcome::NeedMore(s),
        Outcome::Failed(e, s) => Outcome::Failed(e, s),
        Outcome::Ready(_, s) => Outcome::Ready(text_chars(s.text), name_end(s)),
    }
}

/// Reads a member name.
pub open spec fn name_run(st: State, task: Task) -> Outcome<Seq<char>> {
    if st.task == task {
        name_rest_run(st)
    } else {
        match before_name_run(st, task) {
            Outcome::NeedMore(s) => Outcome::NeedMore(s),
            Outcome::Failed(e, s) => Outcome::Failed(e, s),
            Outcome::Ready(_, s) => name_rest_run(s),
        }
    }
}

/// Reads the remainder of a string.
pub open spec fn string_rest_run(st: State) -> Outcome<Seq<char>> {
    match text_run(st) {
        Outcome::NeedMore(s) => Outcome::NeedMore(s),
        Outcome::Failed(e, s) => Outcome::Failed(e, s),
        Outcome::Ready(_, s) => Outcome::Ready(text_chars(s.text), value_end(s.idle())),
    }
}

/// Reads a string.
pub open spec fn string_run(st: State) -> Outcome<Seq<char>> {
    if st.task == Task::Text {
        string_rest_run(st)
    } else {
        match expect_run(st, ValueType::String, false) {
            Outcome::NeedMore(s) => Outcome::NeedMore(s),
            Outcome::Failed(e, s) => Outcome::Failed(e, s),
            Outcome::Ready(_, s) => string_rest_run(
                State { task: Task::Text, text: Seq::empty(), ..s },
            ),
        }
    }
}

/// Starts to read a string piecewise.
pub open spec fn string_reader_run(st: State) -> Outcome<()> {
    match expect_run(st, ValueType::String, false) {
        Outcome::NeedMore(s) => Outcome::NeedMore(s),
        Outcome::Failed(e, s) => Outcome::Failed(e, s),
        Outcome::Ready(_, s) => Outcome::Ready((), State { string_reader_active: true, ..s }),
    }
}

// Numbers
/// What is known about the number which is being read.
pub open spec fn number_scan(task: Task) -> NumberScan {
    match task {
        Task::Number(scan) => scan,
        Task::SkipNumber(scan) => scan,
        _ => number::number_start(),
    }
}

/// The same task with another scan.
pub open spec fn with_scan(task: Task, scan: NumberScan) -> Task {
    match task {
        Task::SkipNumber(_) => Task::SkipNumber(scan),
        _ => Task::Number(scan),
    }
}

/// The state behind a number.
pub open spec fn number_counted(st: State) -> State {
    let len = number_scan(st.task).len as int;
    State { place: st.place.forward(len, len), ..st.idle() }
}

/// What is done when no further byte continues the number. The result is the content of the
/// number.
pub open spec fn number_end(st: State) -> Outcome<Seq<u8>> {
    let scan = number_scan(st.task);
    if !number::number_complete(scan.phase) {
        Outcome::Failed(syntax_error(SyntaxErrorKind::MalformedNumber, st), st.idle())
    } else if st.task is Number && st.settings.restrict_number_values
        && number::exceeds_restrictions(scan) {
        Outcome::Failed(
            ErrorModel::UnsupportedNumberValue {
                number: text_chars(st.text),
                location: st.position(),
            },
            st.idle(),
        )
    } else {
        let s = number_counted(st);
        // Make sure there are no misleading chars directly afterwards, e.g. "123f"
        if s.rest.len() > 0 && !token::is_value_separator(s.rest[0]) {
            Outcome::Failed(syntax_error(SyntaxErrorKind::TrailingDataAfterNumber, s), s)
        } else {
            Outcome::Ready(st.text, s)
        }
    }
}

/// The state behind a byte of a number.
pub open spec fn number_moved(st: State, scan: NumberScan) -> State {
    State {
        task: with_scan(st.task, scan),
        text: if st.collects() {
            st.text.push(st.rest[0])
        } else {
            st.text
        },
        rest: st.rest.skip(1),
        ..st
    }
}

/// Reads a number as far as it goes.
pub open spec fn number_rest_run(st: State) -> Outcome<Seq<u8>>
    decreases st.rest.len(),
{
    if st.rest.len() == 0 {
        if st.eof {
            number_end(st)
        } else {
            Outcome::NeedMore(st)
        }
    } else {
        match number::number_next(number_scan(st.task), st.rest[0]) {
            Some(scan) => number_rest_run(number_moved(st, scan)),
            None => number_end(st),
        }
    }
}

/// Reads the remainder of a number value.
pub open spec fn number_value_run(st: State) -> Outcome<Seq<char>> {
    match number_rest_run(st) {
        Outcome::NeedMore(s) => Outcome::NeedMore(s),
        Outcome::Failed(e, s) => Outcome::Failed(e, s),
        Outcome::Ready(number, s) => Outcome::Ready(text_chars(number), value_end(s)),
    }
}

/// Reads a number.
pub open spec fn number_run(st: State) -> Outcome<Seq<char>> {
    if st.task is Number {
        number_value_run(st)
    } else {
        match expect_run(st, ValueType::Number, false) {
            Outcome::NeedMore(s) => Outcome::NeedMore(s),
            Outcome::Failed(e, s) => Outcome::Failed(e, s),
            Outcome::Ready(_, s) => number_value_run(
                State { task: Task::Number(number::number_start()), text: Seq::empty(), ..s },
            ),
        }
    }
}

// Skipping
/// The state in which a value is skipped whose first token has not been looked at.
pub open spec fn skip_start(st: State) -> State {
    State { skip_depth: Some(0), ..st }
}

/// The state after a failure while skipping.
pub open spec fn skip_abandoned(st: State) -> State {
    State { skip_depth: None, ..st }
}

/// Skips the token which has been recognized. A number is skipped as a whole.
pub open spec fn skip_token_run(p: PeekedValue, st: State) -> Outcome<()> {
    let depth = st.skip_depth->0;
    match p {
        PeekedValue::ArrayEnd | PeekedValue::ObjectEnd => if depth == 0 {
            Outcome::Failed(
                structure_error(UnexpectedStructureKind::FewerElementsThanExpected, st),
                st,
            )
        } else {
            Outcome::Ready(
                (),
                container_end(State { skip_depth: Some((depth - 1) as u64), ..consume_token(st) }),
            )
        },
        PeekedValue::NameStart => Outcome::Ready((), name_start(st, Task::SkipName)),
        PeekedValue::ArrayStart | PeekedValue::ObjectStart => if too_deep(st) {
            Outcome::Failed(too_deep_error(st), st)
        } else {
            Outcome::Ready(
                (),
                container_start(
                    State { skip_depth: Some((depth + 1) as u64), ..consume_token(st) },
                    if p == PeekedValue::ArrayStart {
                        StackValue::Array
                    } else {
                        StackValue::Object
                    },
                ),
            )
        },
        PeekedValue::StringStart => Outcome::Ready(
            (),
            State { task: Task::SkipText, text: Seq::empty(), ..consume_token(st) },
        ),
        PeekedValue::NumberStart => skip_number_run(
            State {
                task: Task::SkipNumber(number::number_start()),
                text: Seq::empty(),
                ..consume_token(st)
            },
        ),
        _ => Outcome::Ready((), value_end(consume_token(st))),
    }
}

/// Skips the remainder of a number.
pub open spec fn skip_number_run(st: State) -> Outcome<()> {
    match number_rest_run(st) {
        Outcome::NeedMore(s) => Outcome::NeedMore(s),
        Outcome::Failed(e, s) => Outcome::Failed(e, s),
        Outcome::Ready(_, s) => Outcome::Ready((), value_end(s)),
    }
}

/// Skips the remainder of what is being read, or else the next token.
pub open spec fn skip_step_run(st: State) -> Outcome<()> {
    match st.task {
        Task::SkipName => match text_run(st) {
            Outcome::NeedMore(s) => Outcome::NeedMore(s),
            Outcome::Failed(e, s) => Outcome::Failed(e, s),
            Outcome::Ready(_, s) => Outcome::Ready((), name_end(s)),
        },
        Task::SkipText => match text_run(st) {
            Outcome::NeedMore(s) => Outcome::NeedMore(s),
            Outcome::Failed(e, s) => Outcome::Failed(e, s),
            Outcome::Ready(_, s) => Outcome::Ready((), value_end(s.idle())),
        },
        Task::SkipNumber(_) => skip_number_run(st),
        _ => match token_ahead_run(st) {
            Outcome::NeedMore(s) => Outcome::NeedMore(s),
            Outcome::Failed(e, s) => Outcome::Failed(e, s),
            Outcome::Ready(p, s) => skip_token_run(p, s),
        },
    }
}

/// Whether all of the value has been skipped.
pub open spec fn skip_done(st: State) -> bool {
    st.skip_depth == Some(0u64) && st.task == Task::Idle
}

/// The amount of work which is left at most.
pub open spec fn work(st: State) -> int {
    2 * (st.rest.len() + peeked_len(st)) + if st.task is Number || st.task is SkipNumber {
        1int
    } else {
        0int
    }
}

/// The number of bytes of the token which has been recognized but not consumed.
pub open spec fn peeked_len(st: State) -> int {
    match st.peeked {
        Some(p) => token::token_len(p),
        None => 0,
    }
}

/// Skips a value, where this has been started already.
pub open spec fn skip_rest_run(st: State) -> Outcome<()>
    decreases work(st),
    via skip_rest_decreases
{
    match skip_step_run(st) {
        Outcome::NeedMore(s) => Outcome::NeedMore(s),
        Outcome::Failed(e, s) => Outcome::Failed(e, skip_abandoned(s)),
        Outcome::Ready(_, s) => if skip_done(s) {
            Outcome::Ready((), State { skip_depth: None, ..s })
        } else {
            skip_rest_run(s)
        },
    }
}

#[via_fn]
proof fn skip_rest_decreases(st: State) {
    lemma_skip_step_work(st);
}

/// Skips a value.
pub open spec fn skip_run(st: State) -> Outcome<()> {
    if st.skip_depth is Some {
        skip_rest_run(st)
    } else {
        skip_rest_run(skip_start(st))
    }
}

/// Skips the remaining values and members of the current array or object and leaves it, until
/// the top-level is reached.
pub open spec fn top_run(st: State) -> Outcome<()>
    decreases work(st),
    via top_run_decreases
{
    if st.stack.len() == 0 && st.skip_depth is None && st.task == Task::Idle {
        Outcome::Ready((), st)
    } else {
        match top_step_run(st) {
            Outcome::NeedMore(s) => Outcome::NeedMore(s),
            Outcome::Failed(e, s) => Outcome::Failed(e, s),
            Outcome::Ready(_, s) => top_run(s),
        }
    }
}

/// Skips the remainder of what is being read, or else the next name or value, or leaves the
/// current array or object.
pub open spec fn top_step_run(st: State) -> Outcome<()> {
    if st.skip_depth is Some {
        skip_rest_run(st)
    } else if st.task == Task::SkipName {
        match text_run(st) {
            Outcome::NeedMore(s) => Outcome::NeedMore(s),
            Outcome::Failed(e, s) => Outcome::Failed(e, s),
            Outcome::Ready(_, s) => Outcome::Ready((), name_end(s)),
        }
    } else if st.expects_member_value() {
        skip_rest_run(skip_start(st))
    } else {
        match token_ahead_run(st) {
            Outcome::NeedMore(s) => Outcome::NeedMore(s),
            Outcome::Failed(e, s) => Outcome::Failed(e, s),
            Outcome::Ready(p, s) => if is_end(p) {
                Outcome::Ready((), container_end(consume_token(s)))
            } else if p == PeekedValue::NameStart {
                Outcome::Ready((), name_start(s, Task::SkipName))
            } else {
                skip_rest_run(skip_start(s))
            },
        }
    }
}

#[via_fn]
proof fn top_run_decreases(st: State) {
    lemma_top_step_work(st);
}

/// Reads up to the end of the input, where only whitespace and comments may follow.
pub open spec fn trailing_run(st: State) -> Outcome<()> {
    match space_run(st) {
        Outcome::NeedMore(s) => Outcome::NeedMore(s),
        Outcome::Failed(e, s) => Outcome::Failed(e, s),
        Outcome::Ready(None, s) => Outcome::Ready((), s),
        Outcome::Ready(Some(_), s) => Outcome::Failed(
            syntax_error(SyntaxErrorKind::TrailingData, s),
            s,
        ),
    }
}

// Reading a string piecewise
/// Reads the next character or escape sequence of a string which is read piecewise. The result
/// is the UTF-8 encoding of the character, `None` behind the end of the string.
pub open spec fn piece_run(st: State) -> Outcome<Option<Seq<u8>>> {
    let unit = text::text_unit(st.rest, st.eof);
    match unit {
        TextUnit::Incomplete => Outcome::NeedMore(st),
        TextUnit::Fault(fault) => Outcome::Failed(
            fault_error(fault, st),
            State { rest: st.rest.skip(text::malformed_len(st.rest, 0)), ..st },
        ),
        TextUnit::End => Outcome::Ready(
            None,
            value_end(State { string_reader_active: false, ..st.moved(1, 1) }),
        ),
        _ => Outcome::Ready(
            Some(text::unit_bytes(unit, st.rest)),
            st.moved(text::unit_len(unit), text::unit_columns(unit)),
        ),
    }
}

/// Reads characters of a string which is read piecewise, until at least `want` bytes are there
/// or the string ends. `produced` are the bytes which are there already. The result are all the
/// bytes, and whether the string has ended.
pub open spec fn pieces_run(st: State, produced: Seq<u8>, want: nat) -> Outcome<(Seq<u8>, bool)>
    decreases st.rest.len(),
    via pieces_run_decreases
{
    if produced.len() >= want {
        Outcome::Ready((produced, false), st)
    } else {
        match piece_run(st) {
            Outcome::NeedMore(s) => Outcome::NeedMore(s),
            Outcome::Failed(e, s) => Outcome::Failed(e, s),
            Outcome::Ready(None, s) => Outcome::Ready((produced, true), s),
            Outcome::Ready(Some(bytes), s) => pieces_run(s, produced + bytes, want),
        }
    }
}

#[via_fn]
proof fn pieces_run_decreases(st: State, produced: Seq<u8>, want: nat) {
    text::lemma_text_unit(st.rest, st.eof);
}

/// The bytes which are there when reading characters of a string piecewise has to wait for input.
pub open spec fn pieces_waiting(st: State, produced: Seq<u8>, want: nat) -> Seq<u8>
    decreases st.rest.len(),
    via pieces_waiting_decreases
{
    if produced.len() >= want {
        produced
    } else {
        match piece_run(st) {
            Outcome::Ready(Some(bytes), s) => pieces_waiting(s, produced + bytes, want),
            _ => produced,
        }
    }
}

#[via_fn]
proof fn pieces_waiting_decreases(st: State, produced: Seq<u8>, want: nat) {
    text::lemma_text_unit(st.rest, st.eof);
}

// The operations terminate
pub proof fn lemma_space_work(st: State)
    ensures
        space_run(st) matches Outcome::Ready(byte, s) ==> s.rest.len() <= st.rest.len() && s
            == (State { place: s.place, comment: s.comment, rest: s.rest, ..st }) && (byte is Some
            ==> s.rest.len() > 0 && byte == Some(s.rest[0])),
    decreases
            st.rest.len(),
            if st.comment == CommentMode::Line {
                1int
            } else {
                0int
            },
{
    space::lemma_space_unit(st.comment, st.settings.allow_comments, st.rest, st.eof);
    if let SpaceUnit::Move { len, columns, line_break, mode } = space_here(st) {
        lemma_space_work(space_moved(st, len, columns, line_break, mode));
    }
}

/// Behind whitespace and comments there are no whitespace and comments.
pub proof fn lemma_space_end(st: State)
    ensures
        space_run(st) matches Outcome::Ready(Some(_), s) ==> space_here(s) is Stop,
    decreases
            st.rest.len(),
            if st.comment == CommentMode::Line {
                1int
            } else {
                0int
            },
{
    space::lemma_space_unit(st.comment, st.settings.allow_comments, st.rest, st.eof);
    if let SpaceUnit::Move { len, columns, line_break, mode } = space_here(st) {
        lemma_space_end(space_moved(st, len, columns, line_break, mode));
    }
}

pub proof fn lemma_peek_work(st: State)
    ensures
        peek_run(st) matches Outcome::Ready(p, s) ==> s.rest.len() + peeked_len(s) <= st.rest.len()
            + peeked_len(st) && s.peeked == p && s.task == st.task && s.skip_depth == st.skip_depth
            && s.stack == st.stack,
{
    if st.peeked is None {
        lemma_space_work(st);
        if let Outcome::Ready(_, s) = colon_run(st) {
            lemma_space_work(s);
            if s.phase is Comma {
            } else if let Outcome::Ready(Some(byte), s1) = space_run(s) {
                let s2 = State { phase: PeekPhase::Comma(s1.place), ..s1.moved(1, 1) };
                lemma_space_work(s2);
            }
            if let Outcome::Ready(true, s2) = comma_run(s) {
                token::lemma_token_unit(s2.expects_member_name, s2.in_array(), s2.rest, s2.eof);
            }
        }
    }
}

pub proof fn lemma_text_work(st: State)
    ensures
        text_run(st) matches Outcome::Ready(_, s) ==> s.rest.len() < st.rest.len() && s == (State {
            place: s.place,
            text: s.text,
            rest: s.rest,
            ..st
        }),
    decreases st.rest.len(),
{
    text::lemma_text_unit(st.rest, st.eof);
    let unit = text::text_unit(st.rest, st.eof);
    if unit is Raw || unit is Escape {
        lemma_text_work(text_moved(st, unit));
    }
}

pub proof fn lemma_number_work(st: State)
    ensures
        number_rest_run(st) matches Outcome::Ready(_, s) ==> s.rest.len() <= st.rest.len() && (
        number_scan(st.task).phase == number::NumberPhase::Start ==> s.rest.len() < st.rest.len())
            && s == (State {
            place: s.place,
            text: s.text,
            rest: s.rest,
            task: Task::Idle,
            ..st
        }),
    decreases st.rest.len(),
{
    if st.rest.len() > 0 {
        if let Some(scan) = number::number_next(number_scan(st.task), st.rest[0]) {
            lemma_number_work(number_moved(st, scan));
        }
    }
}

pub proof fn lemma_skip_step_work(st: State)
    ensures
        skip_step_run(st) matches Outcome::Ready(_, s) ==> work(s) < work(st),
{
    match st.task {
        Task::SkipName => {
            lemma_text_work(st);
        },
        Task::SkipText => {
            lemma_text_work(st);
        },
        Task::SkipNumber(_) => {
            lemma_number_work(st);
        },
        _ => {
            lemma_peek_work(st);
            if let Outcome::Ready(p, s) = token_ahead_run(st) {
                if p == PeekedValue::NumberStart {
                    lemma_number_work(
                        State {
                            task: Task::SkipNumber(number::number_start()),
                            text: Seq::empty(),
                            ..consume_token(s)
                        },
                    );
                }
            }
        },
    }
}

pub proof fn lemma_skip_work(st: State)
    ensures
        skip_rest_run(st) matches Outcome::Ready(_, s) ==> work(s) < work(st),
    decreases work(st),
{
    lemma_skip_step_work(st);
    if let Outcome::Ready(_, s) = skip_step_run(st) {
        if !skip_done(s) {
            lemma_skip_work(s);
        }
    }
}

pub proof fn lemma_top_step_work(st: State)
    ensures
        top_step_run(st) matches Outcome::Ready(_, s) ==> work(s) < work(st),
{
    if st.skip_depth is Some {
        lemma_skip_work(st);
    } else if st.task == Task::SkipName {
        lemma_text_work(st);
    } else if st.expects_member_value() {
        lemma_skip_work(skip_start(st));
    } else {
        lemma_peek_work(st);
        if let Outcome::Ready(p, s) = token_ahead_run(st) {
            if !is_end(p) && p != PeekedValue::NameStart {
                lemma_skip_work(skip_start(s));
            }
        }
    }
}

} // verus!
