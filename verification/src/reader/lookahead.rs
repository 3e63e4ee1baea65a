//! Finding, recognizing and consuming tokens.

use vstd::prelude::*;

use crate::model::{self, Outcome, PeekPhase, State, Task};
use crate::reader::{self, JsonStreamReader};
use crate::resume;
use crate::token::{self, count_fault, read_token_unit, TokenUnit};
use crate::types::{
    self, JsonPathPiece, PathStep, PeekedValue, ReaderError, Step, SyntaxErrorKind,
    UnexpectedStructureKind, ValueType,
};

verus! {

impl<R> JsonStreamReader<R> {
    /// Whether the next token may be looked for.
    pub open spec fn can_look_ahead(&self) -> bool {
        &&& self.wf()
        &&& self@.task == Task::Idle
        &&& !self@.string_reader_active
        &&& self@.peeked is None && self@.behind_top_level()
            ==> self@.settings.allow_multiple_top_level
    }

    /// Consumes the colon behind a member name, if it has to come next.
    pub(super) fn after_name(&mut self) -> (r: Result<Step<()>, ReaderError>)
        requires
            old(self).wf(),
            old(self)@.task == Task::Idle,
            !old(self)@.string_reader_active,
            old(self)@.peeked is None,
        ensures
            final(self).wf(),
            final(self).source() == old(self).source(),
            reader::resolves(|s: State| model::colon_run(s), old(self)@, final(self)@, r),
            final(self)@ == (State {
                place: final(self)@.place,
                comment: final(self)@.comment,
                rest: final(self)@.rest,
                phase: final(self)@.phase,
                ..old(self)@
            }),
            r matches Ok(Step::NeedInput) ==> final(self)@.phase == old(self)@.phase,
            r matches Ok(Step::Ready(_)) ==> final(self)@.phase != PeekPhase::Start
                || !final(self)@.expects_member_value(),
    {
        if self.phase != PeekPhase::Start || !self.expects_member_value() {
            return Ok(Step::Ready(()));
        }
        match self.skip_whitespace() {
            Err(e) => Err(e),
            Ok(Step::NeedInput) => {
                proof {
                    let run = |s: State| model::space_run(s);
                    assert forall|more: Seq<u8>, eof: bool|
                        model::colon_run(#[trigger] model::extend(old(self)@, more, eof))
                            == model::colon_run(model::extend(self@, more, eof)) by {
                        assert(run(model::extend(old(self)@, more, eof)) == run(
                            model::extend(self@, more, eof),
                        ));
                    }
                }
                Ok(Step::NeedInput)
            },
            Ok(Step::Ready(byte)) => {
                if byte == Some(0x3Au8) {
                    self.input.consume(1);
                    self.advance(1, 1);
                    self.phase = PeekPhase::Colon;
                    Ok(Step::Ready(()))
                } else {
                    Err(self.create_syntax_value_error(SyntaxErrorKind::MissingColon))
                }
            },
        }
    }

    /// Consumes the comma in front of the next token, if there is one. The result tells
    /// whether a token follows.
    pub(super) fn read_comma(&mut self) -> (r: Result<Step<bool>, ReaderError>)
        requires
            old(self).wf(),
            old(self)@.task == Task::Idle,
            !old(self)@.string_reader_active,
            old(self)@.peeked is None,
        ensures
            final(self).wf(),
            final(self).source() == old(self).source(),
            reader::resolves(|s: State| model::comma_run(s), old(self)@, final(self)@, r),
            final(self)@ == (State {
                place: final(self)@.place,
                comment: final(self)@.comment,
                rest: final(self)@.rest,
                phase: final(self)@.phase,
                ..old(self)@
            }),
            final(self)@.phase == old(self)@.phase || final(self)@.phase is Comma || r is Err || r
                == Ok::<Step<bool>, ReaderError>(Step::Ready(false)),
            r matches Ok(Step::Ready(true)) ==> model::space_here(final(self)@) is Stop
                && final(self)@.rest.len() > 0 && (final(self)@.phase is Comma
                || final(self)@.rest[0] != 0x2C),
    {
        let has_comma = match self.phase {
            PeekPhase::Comma(_) => true,
            _ => false,
        };
        if !has_comma {
            match self.skip_whitespace() {
                Err(e) => {
                    self.phase = PeekPhase::Start;
                    return Err(e);
                },
                Ok(Step::NeedInput) => {
                    proof {
                        let run = |s: State| model::space_run(s);
                        assert forall|more: Seq<u8>, eof: bool|
                            model::comma_run(#[trigger] model::extend(old(self)@, more, eof))
                                == model::comma_run(model::extend(self@, more, eof)) by {
                            assert(run(model::extend(old(self)@, more, eof)) == run(
                                model::extend(self@, more, eof),
                            ));
                        }
                    }
                    return Ok(Step::NeedInput);
                },
                Ok(Step::Ready(None)) => {
                    self.phase = PeekPhase::Start;
                    return Ok(Step::Ready(false));
                },
                Ok(Step::Ready(Some(byte))) => {
                    if byte != 0x2C {
                        proof {
                            model::lemma_space_end(old(self)@);
                        }
                        return Ok(Step::Ready(true));
                    }
                    let can_have_comma = !self.is_empty && (self.is_in_array()
                        || self.expects_member_name);
                    if !can_have_comma {
                        self.phase = PeekPhase::Start;
                        return Err(
                            self.create_syntax_value_error(SyntaxErrorKind::UnexpectedComma),
                        );
                    }
                    let ghost found = self@;
                    let place = self.place;
                    self.input.consume(1);
                    self.advance(1, 1);
                    self.phase = PeekPhase::Comma(place);
                    proof {
                        assert(self@ =~= (State {
                            phase: PeekPhase::Comma(found.place),
                            ..found.moved(1, 1)
                        }));
                        assert forall|more: Seq<u8>, eof: bool|
                            model::comma_run(#[trigger] model::extend(old(self)@, more, eof))
                                == model::comma_run(model::extend(self@, more, eof)) by {
                            resume::lemma_behind_first_comma(old(self)@, found, more, eof);
                        }
                    }
                },
            }
        }
        let ghost before = self@;
        match self.skip_whitespace() {
            Err(e) => {
                self.phase = PeekPhase::Start;
                Err(e)
            },
            Ok(Step::NeedInput) => {
                proof {
                    let run = |s: State| model::space_run(s);
                    assert forall|more: Seq<u8>, eof: bool|
                        model::comma_run(#[trigger] model::extend(old(self)@, more, eof))
                            == model::comma_run(model::extend(self@, more, eof)) by {
                        assert(run(model::extend(before, more, eof)) == run(
                            model::extend(self@, more, eof),
                        ));
                    }
                }
                Ok(Step::NeedInput)
            },
            Ok(Step::Ready(Some(_))) => {
                proof {
                    model::lemma_space_end(before);
                }
                Ok(Step::Ready(true))
            },
            Ok(Step::Ready(None)) => {
                self.phase = PeekPhase::Start;
                Err(self.create_syntax_value_error(SyntaxErrorKind::IncompleteDocument))
            },
        }
    }

    /// Recognizes the token which the input starts with.
    #[verifier::spinoff_prover]
    #[verifier::rlimit(40)]
    pub(super) fn read_token(&mut self) -> (r: Result<Step<Option<PeekedValue>>, ReaderError>)
        requires
            old(self).wf(),
            old(self)@.task == Task::Idle,
            !old(self)@.string_reader_active,
            old(self)@.peeked is None,
            old(self)@.rest.len() > 0,
            model::space_here(old(self)@) is Stop,
        ensures
            final(self).wf(),
            final(self).source() == old(self).source(),
            r is Ok ==> model::received(final(self)@) == model::received(old(self)@),
            match r {
                Ok(Step::Ready(p)) => model::token_run(old(self)@) == Outcome::Ready(
                    p,
                    final(self)@,
                ) && final(self)@.peeked == p && p is Some,
                Ok(Step::NeedInput) => model::token_run(old(self)@) == Outcome::<Option<PeekedValue>>::NeedMore(final(self)@) && final(self)@
                    == old(self)@ && model::undecided(final(self)@),
                Err(e) => model::token_run(old(self)@) == Outcome::<Option<PeekedValue>>::Failed(
                    e@,
                    final(self)@,
                ),
            },
            final(self)@ == (State {
                place: final(self)@.place,
                rest: final(self)@.rest,
                phase: final(self)@.phase,
                peeked: final(self)@.peeked,
                ..old(self)@
            }),
    {
        let unit = read_token_unit(
            self.expects_member_name,
            self.is_in_array(),
            self.input.available(),
            self.input.is_eof(),
        );
        proof {
            token::lemma_token_unit(self@.expects_member_name, self@.in_array(), self@.rest, self@.eof);
        }
        match unit {
            TokenUnit::Incomplete => Ok(Step::NeedInput),
            TokenUnit::Fault(kind) => {
                let taken: usize = count_fault(
                    self.expects_member_name,
                    self.is_in_array(),
                    self.input.available(),
                    kind,
                );
                self.input.consume(taken);
                self.phase = PeekPhase::Start;
                Err(self.create_syntax_value_error(kind))
            },
            TokenUnit::Token { value, len } => {
                let is_end = value == PeekedValue::ArrayEnd || value == PeekedValue::ObjectEnd;
                let can_have_comma = !self.is_empty && (self.is_in_array()
                    || self.expects_member_name);
                match self.phase {
                    PeekPhase::Comma(comma_place) => {
                        if is_end && !self.reader_settings.allow_trailing_comma {
                            // Report location of comma
                            self.place = comma_place;
                            self.phase = PeekPhase::Start;
                            return Err(
                                self.create_syntax_value_error(
                                    SyntaxErrorKind::TrailingCommaNotEnabled,
                                ),
                            );
                        }
                    },
                    _ => {
                        if !is_end && can_have_comma {
                            let taken: usize = match value {
                                PeekedValue::Null => len,
                                PeekedValue::BooleanTrue => len,
                                PeekedValue::BooleanFalse => len,
                                _ => 0,
                            };
                            self.input.consume(taken);
                            self.phase = PeekPhase::Start;
                            return Err(
                                self.create_syntax_value_error(SyntaxErrorKind::MissingComma),
                            );
                        }
                    },
                }
                self.input.consume(len);
                self.phase = PeekPhase::Start;
                self.peeked = Some(value);
                Ok(Step::Ready(self.peeked))
            },
        }
    }

    /// Recognizes the next token without consuming it; `None` at the end of the input.
    #[verifier::spinoff_prover]
    #[verifier::rlimit(40)]
    pub(super) fn peek_internal_optional(&mut self) -> (r: Result<Step<Option<PeekedValue>>, ReaderError>)
        requires
            old(self).can_look_ahead(),
        ensures
            final(self).wf(),
            final(self).source() == old(self).source(),
            reader::resolves(|s: State| model::peek_run(s), old(self)@, final(self)@, r),
            final(self)@ == (State {
                place: final(self)@.place,
                comment: final(self)@.comment,
                rest: final(self)@.rest,
                phase: final(self)@.phase,
                peeked: final(self)@.peeked,
                ..old(self)@
            }),
            r matches Ok(Step::Ready(p)) ==> final(self)@.peeked == p,
            // Looking again gives the same token, and changes nothing
            r matches Ok(Step::Ready(Some(p))) ==> model::peek_run(final(self)@)
                == Outcome::Ready(Some(p), final(self)@),
            r matches Ok(Step::NeedInput) ==> final(self)@.peeked is None,
    {
        if self.peeked.is_some() {
            return Ok(Step::Ready(self.peeked));
        }
        let ghost run = |s: State| model::peek_run(s);
        // Finish member name which has been consumed before
        match self.after_name() {
            Err(e) => {
                return Err(e);
            },
            Ok(Step::NeedInput) => {
                proof {
                    resume::lemma_peek_continues_colon(old(self)@, self@);
                }
                return Ok(Step::NeedInput);
            },
            Ok(Step::Ready(_)) => {},
        }
        let ghost behind_colon = self@;
        proof {
            resume::lemma_peek_continues_behind_colon(old(self)@, behind_colon);
        }
        match self.read_comma() {
            Err(e) => {
                return Err(e);
            },
            Ok(Step::NeedInput) => {
                proof {
                    resume::lemma_peek_continues_comma(behind_colon, self@);
                    resume::lemma_continues_trans(run, old(self)@, behind_colon, self@);
                }
                return Ok(Step::NeedInput);
            },
            Ok(Step::Ready(false)) => {
                return Ok(Step::Ready(None));
            },
            Ok(Step::Ready(true)) => {},
        }
        let ghost found = self@;
        proof {
            resume::lemma_peek_continues_behind_comma(behind_colon, found);
            resume::lemma_continues_trans(run, old(self)@, behind_colon, found);
        }
        self.read_token()
    }
}

// Consuming tokens
impl<R> JsonStreamReader<R> {
    /// Recognizes the next token without consuming it, where there has to be one.
    pub(super) fn peek_internal(&mut self) -> (r: Result<Step<PeekedValue>, ReaderError>)
        requires
            old(self).can_look_ahead(),
        ensures
            final(self).wf(),
            final(self).source() == old(self).source(),
            reader::resolves(|s: State| model::token_ahead_run(s), old(self)@, final(self)@, r),
            final(self)@ == (State {
                place: final(self)@.place,
                comment: final(self)@.comment,
                rest: final(self)@.rest,
                phase: final(self)@.phase,
                peeked: final(self)@.peeked,
                ..old(self)@
            }),
            r matches Ok(Step::Ready(p)) ==> final(self)@.peeked == Some(p),
            r matches Ok(Step::NeedInput) ==> final(self)@.peeked is None,
    {
        match self.peek_internal_optional() {
            Err(e) => Err(e),
            Ok(Step::NeedInput) => Ok(Step::NeedInput),
            Ok(Step::Ready(Some(p))) => Ok(Step::Ready(p)),
            // Handle EOF
            Ok(Step::Ready(None)) => {
                let eof_as_unexpected_structure = self.is_behind_top_level()
                    && self.reader_settings.allow_multiple_top_level;
                if eof_as_unexpected_structure {
                    Err(
                        self.create_structure_error(
                            UnexpectedStructureKind::FewerElementsThanExpected,
                        ),
                    )
                } else {
                    Err(self.create_syntax_value_error(SyntaxErrorKind::IncompleteDocument))
                }
            },
        }
    }

    /// The type of the value which starts with the token.
    pub(super) fn map_peeked(&self, peeked: PeekedValue) -> (r: Result<ValueType, ReaderError>)
        ensures
            match model::value_type(peeked) {
                Some(ty) => r == Ok::<ValueType, ReaderError>(ty),
                None => r is Err && r->Err_0@ == model::structure_error(
                    UnexpectedStructureKind::FewerElementsThanExpected,
                    self@,
                ),
            },
    {
        match peeked {
            PeekedValue::ObjectStart => Ok(ValueType::Object),
            PeekedValue::ArrayStart => Ok(ValueType::Array),
            PeekedValue::StringStart => Ok(ValueType::String),
            PeekedValue::NumberStart => Ok(ValueType::Number),
            PeekedValue::Null => Ok(ValueType::Null),
            PeekedValue::BooleanTrue => Ok(ValueType::Boolean),
            PeekedValue::BooleanFalse => Ok(ValueType::Boolean),
            _ => Err(
                self.create_structure_error(UnexpectedStructureKind::FewerElementsThanExpected),
            ),
        }
    }

    /// Consumes the token which has been recognized.
    pub(super) fn consume_peeked(&mut self)
        requires
            old(self).wf(),
            old(self)@.peeked is Some,
            !old(self)@.expects_member_name || old(self)@.peeked == Some(PeekedValue::ObjectEnd)
                || old(self)@.peeked == Some(PeekedValue::NameStart),
        ensures
            final(self).wf(),
            final(self).source() == old(self).source(),
            final(self)@ == model::consume_token(old(self)@),
    {
        let peeked_length: u64 = match self.peeked {
            Some(PeekedValue::NumberStart) => 0,  // first number char is not taken during peek
            Some(PeekedValue::Null) => 4,
            Some(PeekedValue::BooleanTrue) => 4,
            Some(PeekedValue::BooleanFalse) => 5,
            _ => 1,
        };
        self.peeked = None;
        // Peeked value types above consist only of ASCII chars; therefore can treat length as byte count
        self.advance(peeked_length, peeked_length);
    }

    /// Whether entering one more array or object would exceed the limit of the settings.
    pub(super) fn exceeds_nesting_depth(&self) -> (r: Option<u32>)
        ensures
            r is Some <==> model::too_deep(self@),
            r is Some ==> r == self@.settings.max_nesting_depth,
    {
        match self.reader_settings.max_nesting_depth {
            Some(max_nesting_depth) => {
                if self.stack.len() as u64 >= max_nesting_depth as u64 {
                    Some(max_nesting_depth)
                } else {
                    None
                }
            },
            None => None,
        }
    }

    /// Whether a value may be read.
    pub open spec fn can_read_value(&self) -> bool {
        &&& self.can_look_ahead()
        &&& self@.skip_depth is None
        &&& !self@.expects_member_name
    }

    /// Consumes the token of a value which has to have the expected type.
    #[verifier::spinoff_prover]
    pub(super) fn start_expected_value_type(&mut self, expected: ValueType, check_depth: bool) -> (r: Result<
        Step<PeekedValue>,
        ReaderError,
    >)
        requires
            old(self).can_look_ahead(),
            !old(self)@.expects_member_name,
        ensures
            final(self).wf(),
            final(self).source() == old(self).source(),
            reader::resolves(
                |s: State| model::expect_run(s, expected, check_depth),
                old(self)@,
                final(self)@,
                r,
            ),
            final(self)@ == (State {
                place: final(self)@.place,
                comment: final(self)@.comment,
                rest: final(self)@.rest,
                phase: final(self)@.phase,
                peeked: final(self)@.peeked,
                ..old(self)@
            }),
            r matches Ok(Step::Ready(p)) ==> {
                &&& model::value_type(p) == Some(expected)
                &&& final(self)@.peeked is None
                &&& final(self)@.phase == PeekPhase::Start
                &&& check_depth ==> !model::too_deep(final(self)@)
                &&& token::token_len(p) > 0 ==> model::structure_valid_before(final(self)@)
            },
    {
        let peeked_internal = match self.peek_internal() {
            Err(e) => {
                return Err(e);
            },
            Ok(Step::NeedInput) => {
                return Ok(Step::NeedInput);
            },
            Ok(Step::Ready(p)) => p,
        };
        let peeked = match self.map_peeked(peeked_internal) {
            Err(e) => {
                return Err(e);
            },
            Ok(ty) => ty,
        };
        if peeked != expected {
            return Err(
                ReaderError::UnexpectedValueType {
                    expected,
                    actual: peeked,
                    location: self.create_error_location(),
                },
            );
        }
        if check_depth {
            // Check nesting depth before consuming token, so that error location points at token
            // instead of behind it
            if let Some(max_nesting_depth) = self.exceeds_nesting_depth() {
                return Err(
                    ReaderError::MaxNestingDepthExceeded {
                        max_nesting_depth,
                        location: self.create_error_location(),
                    },
                );
            }
        }
        self.consume_peeked();
        Ok(Step::Ready(peeked_internal))
    }

    /// Notes that a value has been consumed.
    #[verifier::spinoff_prover]
    pub(super) fn on_value_end(&mut self)
        requires
            old(self).inv(),
            old(self)@.task == Task::Idle,
            old(self)@.peeked is None,
            old(self)@.phase == PeekPhase::Start,
            !old(self)@.string_reader_active,
            model::structure_valid_before(old(self)@),
        ensures
            final(self).inv(),
            final(self).input == old(self).input,
            final(self).source() == old(self).source(),
            final(self)@ == model::value_end(old(self)@),
    {
        // Update array path
        let ghost old_path = self@.path;
        if self.is_in_array() {
            match &mut self.json_path {
                Some(path) => {
                    let ghost steps = types::path_view(path@);
                    assert(old_path == Some(steps));
                    assert(steps.last() is Item && path@.last()@ == steps.last());
                    let piece = path.pop();
                    match piece {
                        Some(JsonPathPiece::ArrayItem(index)) => {
                            path.push(JsonPathPiece::ArrayItem(index + 1));
                        },
                        _ => {},
                    }
                    assert(types::path_view(path@) =~= steps.update(
                        steps.len() - 1,
                        PathStep::Item((steps.last()->Item_0 + 1) as u64),
                    ));
                },
                None => {},
            }
        }
        // After value was consumed indicate that object member name is expected next

        if self.is_in_object() {
            self.expects_member_name = true;
        }
        // Enclosing container is not empty since a child of it has been consumed

        self.is_empty = false;
        assert(self@ =~= model::value_end(old(self)@));
    }
}

} // verus!
