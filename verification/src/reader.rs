//! The JSON reader.
//!
//! The reader does not obtain its input itself. An operation which cannot be completed with
//! the input received so far answers [`Step::NeedInput`]. Then more input has to be supplied
//! with [`JsonStreamReader::fill_buffer`], and the same operation has to be called again. It
//! continues where it left off.

mod containers;
mod input;
mod inspection;
mod lookahead;
mod numbers;
mod pieces;
mod skipping;
mod strings;

use vstd::prelude::*;
use vstd::utf8::*;

use crate::buffer::{BytesValue, InputBuffer, READER_BUF_SIZE};
use crate::model::{self, Outcome, PeekPhase, State, Task};
use crate::resume;
use crate::space::{self, count_fault, read_space_unit, CommentMode, SpaceUnit};
use crate::types::{
    self, ErrorKind, Fault, IoError, JsonPathPiece, JsonReaderPosition, JsonSyntaxError,
    LinePosition, PathStep, PeekedValue, Place, ReaderError, ReaderSettings, StackValue, Step,
    SyntaxErrorKind, UnexpectedStructureKind,
};

verus! {

/// A JSON reader which consumes data from a source `R`.
///
/// The data is expected to be valid UTF-8. The operations answer with
/// [`ReaderError::IoError`] if invalid UTF-8 data is detected. A leading byte order mark (BOM)
/// is not allowed.
#[derive(Debug)]
pub struct JsonStreamReader<R> {
    reader: R,
    input: InputBuffer,
    peeked: Option<PeekedValue>,
    /// Whether the current array or object is empty, or at top-level whether no value has been
    /// consumed yet.
    is_empty: bool,
    expects_member_name: bool,
    stack: Vec<StackValue>,
    is_string_value_reader_active: bool,
    place: Place,
    json_path: Option<Vec<JsonPathPiece>>,
    reader_settings: ReaderSettings,
    comment: CommentMode,
    phase: PeekPhase,
    task: Task,
    skip_depth: Option<u64>,
}

impl<R> View for JsonStreamReader<R> {
    type V = State;

    closed spec fn view(&self) -> State {
        State {
            peeked: self.peeked,
            is_empty: self.is_empty,
            expects_member_name: self.expects_member_name,
            stack: self.stack@,
            string_reader_active: self.is_string_value_reader_active,
            place: self.place,
            path: types::optional_path_view(self.json_path),
            settings: self.reader_settings,
            comment: self.comment,
            phase: self.phase,
            task: self.task,
            text: self.input.value(),
            skip_depth: self.skip_depth,
            rest: self.input.unread(),
            eof: self.input.eof(),
        }
    }
}

/// Whether the result of an operation is the one which its model determines, and the reader is
/// in the state which belongs to it. Where more input is needed, the operation can be called
/// again in the state which the reader is in then.
pub open spec fn resolves<T>(
    run: spec_fn(State) -> Outcome<T>,
    before: State,
    after: State,
    r: Result<Step<T>, ReaderError>,
) -> bool {
    match r {
        Ok(Step::Ready(v)) => {
            &&& run(before) == Outcome::Ready(v, after)
            &&& model::received(after) == model::received(before)
        },
        Ok(Step::NeedInput) => {
            &&& run(before) == Outcome::<T>::NeedMore(after)
            &&& model::continues(run, before, after)
            &&& model::undecided(after)
            &&& model::received(after) == model::received(before)
        },
        Err(e) => run(before) == Outcome::<T>::Failed(e@, after),
    }
}

/// The characters of a text result.
pub open spec fn text_step(r: Result<Step<String>, ReaderError>) -> Result<
    Step<Seq<char>>,
    ReaderError,
> {
    match r {
        Ok(Step::Ready(s)) => Ok(Step::Ready(s@)),
        Ok(Step::NeedInput) => Ok(Step::NeedInput),
        Err(e) => Err(e),
    }
}

/// The characters of a text result which is handed out by the reader.
pub open spec fn value_step<R>(
    reader: JsonStreamReader<R>,
    r: Result<Step<BytesValue>, ReaderError>,
) -> Result<Step<Seq<char>>, ReaderError> {
    match r {
        Ok(Step::Ready(value)) => Ok(Step::Ready(reader.text_of(value))),
        Ok(Step::NeedInput) => Ok(Step::NeedInput),
        Err(e) => Err(e),
    }
}

/// The characters of a borrowed text result.
pub open spec fn str_step(r: Result<Step<&str>, ReaderError>) -> Result<
    Step<Seq<char>>,
    ReaderError,
> {
    match r {
        Ok(Step::Ready(s)) => Ok(Step::Ready(s@)),
        Ok(Step::NeedInput) => Ok(Step::NeedInput),
        Err(e) => Err(e),
    }
}

/// The result without its value.
pub open spec fn unit_outcome<T>(o: Outcome<T>) -> Outcome<()> {
    match o {
        Outcome::Ready(_, s) => Outcome::Ready((), s),
        Outcome::Failed(e, s) => Outcome::Failed(e, s),
        Outcome::NeedMore(s) => Outcome::NeedMore(s),
    }
}

// Creating readers
impl<R> JsonStreamReader<R> {
    /// The source which the reader was created for.
    pub closed spec fn source(&self) -> R {
        self.reader
    }

    /// The characters of a value which is handed out.
    pub closed spec fn text_of(&self, value: BytesValue) -> Seq<char> {
        decode_utf8(self.input.bytes_of(value))
    }

    /// Whether the value can be obtained from the reader.
    pub closed spec fn provides(&self, value: BytesValue) -> bool {
        &&& self.inv()
        &&& self@.task == Task::Idle
        &&& self.input.provides(value)
        &&& self.input.holds_value() ==> value is BytesRef
        &&& valid_utf8(self.input.bytes_of(value))
    }

    /// Whether the value can be obtained as `str` from the reader.
    pub open spec fn hands_out(&self, value: BytesValue) -> bool {
        self.provides(value) && value is BytesRef
    }

    /// How many bytes of the buffer are free behind the input which has been received.
    pub closed spec fn free_space(&self) -> int {
        self.input.space()
    }

    /// Whether a value is being read which has not been moved out of the buffer.
    pub closed spec fn collects_in_place(&self) -> bool {
        self.input.collecting() && !self.input.separate()
    }

    /// What holds of the reader even while a value is handed out.
    pub closed spec fn inv(&self) -> bool {
        &&& self.input.wf()
        &&& self.input.collecting() == self@.collects()
        &&& model::valid(self@)
    }

    /// What holds of the reader between operations.
    pub closed spec fn wf(&self) -> bool {
        self.inv() && !self.input.holds_value()
    }

    /// The state of a reader is valid. In particular a path which is tracked has a step of the
    /// right sort for each array and object which has been entered. The buffer holds the input
    /// which has not been processed, and a value only while one is being read.
    pub proof fn law_invariant(&self)
        ensures
            self.inv() ==> model::valid(self@),
            self.wf() ==> self.inv(),
            forall|value: BytesValue| #[trigger] self.provides(value) ==> self.inv(),
            self.inv() ==> 0 <= self.free_space() <= READER_BUF_SIZE - self@.rest.len(),
            self.inv() && self.collects_in_place() ==> self@.collects(),
    {
        self.input.law_invariant();
    }

    /// Creates a JSON reader with [default settings](ReaderSettings::default).
    pub fn new(reader: R) -> (r: Self)
        ensures
            r.wf(),
            r@ == model::initial_state(types::default_settings()),
            r.source() == reader,
    {
        JsonStreamReader::new_custom(reader, ReaderSettings::default())
    }

    /// Creates a JSON reader with custom settings.
    ///
    /// The settings can be used to customize which JSON data the reader accepts and to allow
    /// JSON data which is not valid according to the JSON standard.
    pub fn new_custom(reader: R, reader_settings: ReaderSettings) -> (r: Self)
        ensures
            r.wf(),
            r@ == model::initial_state(reader_settings),
            r.source() == reader,
    {
        let initial_nesting_capacity: usize = 16;
        let r = JsonStreamReader {
            reader,
            input: InputBuffer::new(),
            peeked: None,
            is_empty: true,
            expects_member_name: false,
            stack: Vec::with_capacity(initial_nesting_capacity),
            is_string_value_reader_active: false,
            place: Place { line: 0, column: 0, byte_pos: 0 },
            json_path: if reader_settings.track_path {
                Some(Vec::with_capacity(initial_nesting_capacity))
            } else {
                None
            },
            reader_settings,
            comment: CommentMode::Outside,
            phase: PeekPhase::Start,
            task: Task::Idle,
            skip_depth: None,
        };
        assert(r@ =~= model::initial_state(reader_settings)) by {
            if reader_settings.track_path {
                assert(r@.path->0 =~= Seq::<PathStep>::empty());
            }
        }
        r
    }

    /// Gets a mutable reference to the underlying source.
    ///
    /// This should only be needed rarely, for advanced use cases only. The source should not be
    /// used for determining the byte position of the JSON reader, since it might buffer not yet
    /// processed data internally. Instead the `data_pos` of
    /// [`current_position`](Self::current_position) should be used for that.
    pub fn reader_mut(&mut self) -> (r: &mut R)
        requires
            old(self).wf(),
        ensures
            *r == old(self).source(),
            final(self).source() == *final(r),
            final(self)@ == old(self)@,
            final(self).wf(),
    {
        &mut self.reader
    }
}

impl<R> JsonStreamReader<R> {
    /// Gets a reference to the underlying source.
    pub fn reader_ref(&self) -> (r: &R)
        ensures
            *r == self.source(),
    {
        &self.reader
    }
}

// Locations and errors, and the JSON structure
impl<R> JsonStreamReader<R> {
    /// Gets the current position of the reader.
    pub fn current_position(&self, include_path: bool) -> (r: JsonReaderPosition)
        ensures
            include_path ==> r@ == self@.position(),
            !include_path ==> r@ == (types::PositionModel { path: None, ..self@.position() }),
    {
        let path = if include_path {
            match &self.json_path {
                Some(path) => Some(types::clone_path(path)),
                None => None,
            }
        } else {
            None
        };
        JsonReaderPosition {
            path,
            line_pos: Some(LinePosition { line: self.place.line, column: self.place.column }),
            data_pos: Some(self.place.byte_pos),
        }
    }

    fn create_error_location(&self) -> (r: JsonReaderPosition)
        ensures
            r@ == self@.position(),
    {
        self.current_position(true)
    }

    fn create_syntax_value_error(&self, kind: SyntaxErrorKind) -> (r: ReaderError)
        ensures
            r@ == model::syntax_error(kind, self@),
    {
        ReaderError::SyntaxError(JsonSyntaxError { kind, location: self.create_error_location() })
    }

    fn create_structure_error(&self, kind: UnexpectedStructureKind) -> (r: ReaderError)
        ensures
            r@ == model::structure_error(kind, self@),
    {
        ReaderError::UnexpectedStructure { kind, location: self.create_error_location() }
    }

    fn create_fault_error(&self, fault: Fault) -> (r: ReaderError)
        ensures
            r@ == model::fault_error(fault, self@),
    {
        match fault {
            Fault::Syntax(kind) => self.create_syntax_value_error(kind),
            Fault::InvalidUtf8 => ReaderError::IoError {
                error: IoError {
                    kind: ErrorKind::InvalidData,
                    message: "invalid UTF-8 data".to_owned(),
                },
                location: self.create_error_location(),
            },
        }
    }

    fn is_behind_top_level(&self) -> (r: bool)
        ensures
            r == self@.behind_top_level(),
    {
        !self.is_empty && self.stack.len() == 0
    }

    fn is_in_array(&self) -> (r: bool)
        ensures
            r == self@.in_array(),
    {
        self.stack.len() > 0 && self.stack[self.stack.len() - 1] == StackValue::Array
    }

    fn is_in_object(&self) -> (r: bool)
        ensures
            r == self@.in_object(),
    {
        self.stack.len() > 0 && self.stack[self.stack.len() - 1] == StackValue::Object
    }

    fn expects_member_value(&self) -> (r: bool)
        ensures
            r == self@.expects_member_value(),
    {
        self.is_in_object() && !self.expects_member_name
    }

    /// Moves the place behind characters of the same line.
    fn advance(&mut self, columns: u64, bytes: u64)
        requires
            columns <= bytes,
            model::place_valid(old(self)@.place),
            old(self)@.place.byte_pos + bytes <= u64::MAX,
        ensures
            final(self)@ == (State {
                place: old(self)@.place.forward(columns as int, bytes as int),
                ..old(self)@
            }),
            final(self).input == old(self).input,
            final(self).reader == old(self).reader,
    {
        self.place = Place {
            line: self.place.line,
            column: self.place.column + columns,
            byte_pos: self.place.byte_pos + bytes,
        };
    }
}

// Whitespace and comments
impl<R> JsonStreamReader<R> {
    /// Skips whitespace and comments. The result is the byte behind them, `None` at the end of
    /// the input.
    #[verifier::spinoff_prover]
    #[verifier::rlimit(40)]
    fn skip_whitespace(&mut self) -> (r: Result<Step<Option<u8>>, ReaderError>)
        requires
            old(self).wf(),
            old(self)@.task == Task::Idle,
            !old(self)@.string_reader_active,
        ensures
            final(self).wf(),
            final(self).source() == old(self).source(),
            resolves(|s: State| model::space_run(s), old(self)@, final(self)@, r),
            final(self)@ == (State {
                place: final(self)@.place,
                comment: final(self)@.comment,
                rest: final(self)@.rest,
                ..old(self)@
            }),
            final(self)@.place.byte_pos >= old(self)@.place.byte_pos,
            r matches Ok(Step::Ready(byte)) ==> final(self)@.comment == CommentMode::Outside && (byte
                is Some ==> final(self)@.rest.len() > 0 && byte == Some(final(self)@.rest[0])),
    {
        let ghost run = |s: State| model::space_run(s);
        loop
            invariant
                run == (|s: State| model::space_run(s)),
                self.wf(),
                self.source() == old(self).source(),
                self@ == (State {
                    place: self@.place,
                    comment: self@.comment,
                    rest: self@.rest,
                    ..old(self)@
                }),
                self@.place.byte_pos >= old(self)@.place.byte_pos,
                self@.task == Task::Idle,
                !self@.string_reader_active,
                model::received(self@) == model::received(old(self)@),
                model::space_run(old(self)@) == model::space_run(self@),
                model::continues(run, old(self)@, self@),
            decreases
                    self@.rest.len(),
                    if self@.comment == CommentMode::Line {
                        1int
                    } else {
                        0int
                    },
        {
            let unit = read_space_unit(
                self.comment,
                self.reader_settings.allow_comments,
                self.input.available(),
                self.input.is_eof(),
            );
            proof {
                space::lemma_space_unit(
                    self@.comment,
                    self@.settings.allow_comments,
                    self@.rest,
                    self@.eof,
                );
            }
            match unit {
                SpaceUnit::Incomplete => {
                    return Ok(Step::NeedInput);
                },
                SpaceUnit::Stop => {
                    let byte: u8 = self.input.available()[0];
                    return Ok(Step::Ready(Some(byte)));
                },
                SpaceUnit::End => {
                    self.comment = CommentMode::Outside;
                    return Ok(Step::Ready(None));
                },
                SpaceUnit::Fault { fault, ahead } => {
                    proof {
                        space::lemma_fault_len(
                            self@.comment,
                            self@.settings.allow_comments,
                            self@.rest,
                            self@.eof,
                        );
                    }
                    let taken: usize = count_fault(
                        self.comment,
                        self.reader_settings.allow_comments,
                        self.input.available(),
                        fault,
                    );
                    self.input.consume(taken);
                    self.advance(ahead as u64, ahead as u64);
                    let e = self.create_fault_error(fault);
                    self.comment = CommentMode::Outside;
                    return Err(e);
                },
                SpaceUnit::Move { len, columns, line_break, mode } => {
                    let ghost before = self@;
                    self.input.consume(len);
                    if line_break {
                        self.place = Place {
                            line: self.place.line + 1,
                            column: 0,
                            byte_pos: self.place.byte_pos + len as u64,
                        };
                    } else {
                        self.advance(columns as u64, len as u64);
                    }
                    self.comment = mode;
                    proof {
                        assert(self@ =~= model::space_moved(
                            before,
                            len,
                            columns,
                            line_break,
                            mode,
                        ));
                        assert forall|more: Seq<u8>, eof: bool|
                            run(#[trigger] model::extend(old(self)@, more, eof)) == run(
                                model::extend(self@, more, eof),
                            ) by {
                            resume::lemma_space_step(before, more, eof);
                            assert(run(model::extend(old(self)@, more, eof)) == run(
                                model::extend(before, more, eof),
                            ));
                        }
                    }
                },
            }
        }
    }
}

} // verus!
