//! Strings and member names.

use vstd::prelude::*;
use vstd::utf8::*;

use crate::buffer::BytesValue;
use crate::chars;
use crate::model::{self, Outcome, PeekPhase, State, Task};
use crate::reader::{self, JsonStreamReader};
use crate::resume;
use crate::text::{self, count_malformed, read_string_unit, TextUnit};
use crate::types::{
    self, JsonPathPiece, PathStep, ReaderError, Step, UnexpectedStructureKind, ValueType,
};

verus! {

impl<R> JsonStreamReader<R> {
    /// Takes a character or escape sequence of a string from the input.
    #[verifier::spinoff_prover]
    #[verifier::rlimit(40)]
    pub(super) fn take_string_unit(&mut self, unit: TextUnit)
        requires
            old(self).wf(),
            old(self)@.task is Name || old(self)@.task is SkipName || old(self)@.task is Text || old(
                self,
            )@.task is SkipText,
            unit is Raw || unit is Escape,
            unit == text::text_unit(old(self)@.rest, old(self)@.eof),
        ensures
            final(self).wf(),
            final(self).source() == old(self).source(),
            final(self)@ == model::text_moved(old(self)@, unit),
    {
        let ghost before = self@;
        proof {
            text::lemma_text_unit(before.rest, before.eof);
            if before.collects() {
                valid_utf8_concat(before.text, text::unit_bytes(unit, before.rest));
            }
        }
        let collects = match self.task {
            Task::SkipText => false,
            Task::SkipName => self.json_path.is_some(),
            _ => true,
        };
        match unit {
            TextUnit::Raw(len) => {
                if collects {
                    self.input.keep(len);
                } else {
                    self.input.consume(len);
                }
                self.advance(1, len as u64);
            },
            TextUnit::Escape { len, c } => {
                if !collects {
                    self.input.consume(len);
                } else if c == 0x22 || c == 0x5C || c == 0x2F {
                    if len == 2 {
                        // Exclude the '\' from the value, and keep the literal char
                        self.input.skip_bytes(1);
                        self.input.keep(1);
                        proof {
                            assert((c & 0x7F) == c) by (bit_vector)
                                requires
                                    c == 0x22 || c == 0x5C || c == 0x2F,
                            ;
                            assert(before.rest.skip(1).take(1) =~= encode_scalar(c));
                            assert(before.rest.skip(1).skip(1) =~= before.rest.skip(2));
                        }
                    } else {
                        self.input.skip_bytes(len);
                        let encoded = chars::encode_char(c);
                        self.input.push_bytes(encoded.as_slice());
                    }
                } else {
                    // Skip the escape sequence and instead push the represented char
                    self.input.skip_bytes(len);
                    let encoded = chars::encode_char(c);
                    self.input.push_bytes(encoded.as_slice());
                }
                self.advance(len as u64, len as u64);
            },
            _ => {},
        }
        assert(self@ =~= model::text_moved(before, unit));
    }

    /// Reads the content of a string or member name up to and including the closing `"`.
    #[verifier::spinoff_prover]
    #[verifier::rlimit(40)]
    pub(super) fn read_string(&mut self) -> (r: Result<Step<()>, ReaderError>)
        requires
            old(self).wf(),
            old(self)@.task is Name || old(self)@.task is SkipName || old(self)@.task is Text || old(
                self,
            )@.task is SkipText,
        ensures
            final(self).wf(),
            final(self).source() == old(self).source(),
            reader::resolves(|s: State| model::text_run(s), old(self)@, final(self)@, r),
            r is Ok ==> final(self)@ == (State {
                place: final(self)@.place,
                text: final(self)@.text,
                rest: final(self)@.rest,
                ..old(self)@
            }),
            r matches Ok(Step::Ready(_)) ==> model::structure_valid_before(final(self)@),
    {
        let ghost run = |s: State| model::text_run(s);
        loop
            invariant
                run == (|s: State| model::text_run(s)),
                self.wf(),
                self.source() == old(self).source(),
                self@.task is Name || self@.task is SkipName || self@.task is Text || self@.task
                    is SkipText,
                self@ == (State {
                    place: self@.place,
                    text: self@.text,
                    rest: self@.rest,
                    ..old(self)@
                }),
                model::received(self@) == model::received(old(self)@),
                model::text_run(old(self)@) == model::text_run(self@),
                model::continues(run, old(self)@, self@),
            decreases self@.rest.len(),
        {
            let ghost before = self@;
            let unit = read_string_unit(self.input.available(), self.input.is_eof());
            proof {
                text::lemma_text_unit(before.rest, before.eof);
            }
            match unit {
                TextUnit::Incomplete => {
                    return Ok(Step::NeedInput);
                },
                TextUnit::Fault(fault) => {
                    let e = self.create_fault_error(fault);
                    let taken: usize = count_malformed(self.input.available());
                    self.input.abandon_value();
                    self.input.consume(taken);
                    self.task = Task::Idle;
                    assert(self@ =~= (State { rest: before.rest.skip(taken as int), ..before.idle() }));
                    return Err(e);
                },
                TextUnit::End => {
                    // Don't include the '"' in the value
                    let collects = match self.task {
                        Task::SkipText => false,
                        Task::SkipName => self.json_path.is_some(),
                        _ => true,
                    };
                    if collects {
                        self.input.skip_final_byte();
                    } else {
                        self.input.consume(1);
                    }
                    self.advance(1, 1);
                    assert(self@ =~= before.moved(1, 1));
                    return Ok(Step::Ready(()));
                },
                _ => {
                    self.take_string_unit(unit);
                    proof {
                        assert forall|more: Seq<u8>, eof: bool|
                            run(#[trigger] model::extend(old(self)@, more, eof)) == run(
                                model::extend(self@, more, eof),
                            ) by {
                            resume::lemma_text_step(before, more, eof);
                            assert(run(model::extend(old(self)@, more, eof)) == run(
                                model::extend(before, more, eof),
                            ));
                        }
                    }
                },
            }
        }
    }

    /// Whether a member name may be read.
    pub open spec fn can_start_name(&self) -> bool {
        self.can_ask_next() && self@.expects_member_name
    }

    /// Reads up to the opening `"` of a member name.
    #[verifier::spinoff_prover]
    pub(super) fn before_name(&mut self, task: Task) -> (r: Result<Step<()>, ReaderError>)
        requires
            old(self).can_start_name(),
            task == Task::Name || task == Task::SkipName,
        ensures
            final(self).wf(),
            final(self).source() == old(self).source(),
            reader::resolves(|s: State| model::before_name_run(s, task), old(self)@, final(self)@, r),
            r matches Ok(Step::NeedInput) ==> final(self).can_start_name(),
            r matches Ok(Step::Ready(_)) ==> final(self)@.task == task && final(self)@.skip_depth
                is None,
    {
        match self.has_next() {
            Err(e) => Err(e),
            Ok(Step::NeedInput) => Ok(Step::NeedInput),
            Ok(Step::Ready(false)) => Err(
                self.create_structure_error(UnexpectedStructureKind::FewerElementsThanExpected),
            ),
            Ok(Step::Ready(true)) => {
                let ghost found = self@;
                self.consume_peeked();
                self.expects_member_name = false;
                let collects = match task {
                    Task::SkipName => self.json_path.is_some(),
                    _ => true,
                };
                if collects {
                    self.input.begin_value();
                }
                self.task = task;
                assert(self@ =~= model::name_start(found, task));
                Ok(Step::Ready(()))
            },
        }
    }

    /// Replaces the last step of the path by the name of the current member.
    pub(super) fn set_member_name(&mut self, name: String)
        requires
            old(self).inv(),
            old(self)@.task == Task::Idle,
            old(self)@.peeked is None,
            old(self)@.phase == PeekPhase::Start,
            old(self)@.in_object(),
        ensures
            final(self).inv(),
            final(self).input == old(self).input,
            final(self).source() == old(self).source(),
            final(self)@ == (State {
                path: match old(self)@.path {
                    Some(steps) => Some(steps.update(steps.len() - 1, PathStep::Member(name@))),
                    None => None,
                },
                ..old(self)@
            }),
    {
        match &mut self.json_path {
            Some(path) => {
                let ghost steps = types::path_view(path@);
                path.pop();
                path.push(JsonPathPiece::ObjectMember(name));
                assert(types::path_view(path@) =~= steps.update(
                    steps.len() - 1,
                    PathStep::Member(name@),
                ));
            },
            None => {},
        }
        proof {
            let steps = self@.path->0;
            assert(self@.path is Some ==> model::path_valid(
                steps,
                self@.stack,
                self@.place.byte_pos as int,
            )) by {
                if self@.path is Some {
                    let before = old(self)@.path->0;
                    assert(forall|i: int|
                        0 <= i < steps.len() - 1 ==> #[trigger] steps[i] == before[i]);
                }
            }
        }
    }

    /// Obtains the value which has been read.
    pub(super) fn end_value(&mut self, requires_borrowed: bool) -> (r: BytesValue)
        requires
            old(self).wf(),
            old(self)@.collects(),
            valid_utf8(old(self)@.text),
        ensures
            final(self).inv(),
            final(self).source() == old(self).source(),
            final(self)@ == old(self)@.idle(),
            final(self).text_of(r) == decode_utf8(old(self)@.text),
            final(self).provides(r),
            requires_borrowed ==> r is BytesRef,
    {
        let value = self.input.get_bytes(requires_borrowed);
        self.task = Task::Idle;
        assert(self@ =~= old(self)@.idle());
        value
    }

    /// Gets a value which has been read as `str`.
    pub fn get_str(&mut self, value: BytesValue) -> (r: &str)
        requires
            old(self).hands_out(value),
        ensures
            final(self).wf(),
            final(self).source() == old(self).source(),
            final(self)@ == old(self)@,
            r@ == old(self).text_of(value),
    {
        let r = value.get_str(&mut self.input);
        r
    }

    /// Gets a value which has been read as `String`.
    pub(super) fn get_string(&mut self, value: BytesValue) -> (r: String)
        requires
            old(self).provides(value),
        ensures
            final(self).wf(),
            final(self).source() == old(self).source(),
            final(self)@ == old(self)@,
            r@ == old(self).text_of(value),
    {
        value.get_string(&mut self.input)
    }

    /// Reads the content of a member name.
    #[verifier::spinoff_prover]
    pub(super) fn read_name(&mut self, task: Task) -> (r: Result<Step<()>, ReaderError>)
        requires
            task == Task::Name || task == Task::SkipName,
            old(self).wf(),
            old(self)@.task == task || old(self).can_start_name(),
            old(self)@.skip_depth is None,
        ensures
            final(self).wf(),
            final(self).source() == old(self).source(),
            r is Ok ==> model::received(final(self)@) == model::received(old(self)@),
            match r {
                Ok(Step::Ready(_)) => {
                    &&& final(self)@.task == task
                    &&& model::name_run(old(self)@, task) == Outcome::Ready(
                        model::text_chars(final(self)@.text),
                        model::name_end(final(self)@),
                    )
                },
                Ok(Step::NeedInput) => {
                    &&& model::name_run(old(self)@, task) == Outcome::<Seq<char>>::NeedMore(final(self)@)
                    &&& model::continues(
                        |s: State| model::name_run(s, task),
                        old(self)@,
                        final(self)@,
                    )
                    &&& model::undecided(final(self)@)
                    &&& final(self)@.skip_depth is None
                    &&& final(self)@.task == task || final(self).can_start_name()
                },
                Err(e) => model::name_run(old(self)@, task) == Outcome::<Seq<char>>::Failed(
                    e@,
                    final(self)@,
                ),
            },
    {
        let ghost run = |s: State| model::name_run(s, task);
        if self.task != task {
            match self.before_name(task) {
                Err(e) => {
                    return Err(e);
                },
                Ok(Step::NeedInput) => {
                    proof {
                        resume::lemma_name_continues_before(old(self)@, self@, task);
                    }
                    return Ok(Step::NeedInput);
                },
                Ok(Step::Ready(_)) => {
                    proof {
                        resume::lemma_name_continues_begun(old(self)@, self@, task);
                    }
                },
            }
        }
        let ghost begun = self@;
        match self.read_string() {
            Err(e) => Err(e),
            Ok(Step::NeedInput) => {
                proof {
                    resume::lemma_name_continues_text(begun, self@, task);
                    if old(self)@.task != task {
                        resume::lemma_continues_trans(run, old(self)@, begun, self@);
                    }
                }
                Ok(Step::NeedInput)
            },
            Ok(Step::Ready(_)) => Ok(Step::Ready(())),
        }
    }

    /// Whether a member name may be read, or is being read.
    pub open spec fn can_read_name(&self) -> bool {
        (self.wf() && self@.task == Task::Name) || self.can_start_name()
    }

    /// Reads a member name.
    #[verifier::spinoff_prover]
    pub fn next_name_owned(&mut self) -> (r: Result<Step<String>, ReaderError>)
        requires
            old(self).can_read_name(),
        ensures
            final(self).wf(),
            final(self).source() == old(self).source(),
            reader::resolves(
                |s: State| model::name_run(s, Task::Name),
                old(self)@,
                final(self)@,
                reader::text_step(r),
            ),
            r matches Ok(Step::NeedInput) ==> final(self).can_read_name(),
    {
        match self.read_name(Task::Name) {
            Err(e) => Err(e),
            Ok(Step::NeedInput) => Ok(Step::NeedInput),
            Ok(Step::Ready(_)) => {
                let ghost read = self@;
                let value = self.end_value(false);
                let name = self.get_string(value);
                self.set_member_name(name.clone());
                assert(self@ =~= model::name_end(read));
                Ok(Step::Ready(name))
                // Consuming `:` after name is delayed until member value is consumed
            },
        }
    }

    /// Reads a member name. The result can be obtained with [`get_str`](Self::get_str).
    #[verifier::spinoff_prover]
    pub fn next_name_value(&mut self) -> (r: Result<Step<BytesValue>, ReaderError>)
        requires
            old(self).can_read_name(),
        ensures
            final(self).inv(),
            final(self).source() == old(self).source(),
            reader::resolves(
                |s: State| model::name_run(s, Task::Name),
                old(self)@,
                final(self)@,
                reader::value_step(*final(self), r),
            ),
            match r {
                Ok(Step::Ready(value)) => final(self).hands_out(value),
                Ok(Step::NeedInput) => final(self).can_read_name(),
                Err(_) => final(self).wf(),
            },
    {
        match self.read_name(Task::Name) {
            Err(e) => Err(e),
            Ok(Step::NeedInput) => Ok(Step::NeedInput),
            Ok(Step::Ready(_)) => {
                let ghost read = self@;
                let value = self.end_value(true);
                if self.json_path.is_some() {
                    let name = value.get_str_peek(&self.input).to_owned();
                    self.set_member_name(name);
                }
                assert(self@ =~= model::name_end(read));
                Ok(Step::Ready(value))
            },
        }
    }

    /// Reads a member name.
    pub fn next_name(&mut self) -> (r: Result<Step<&str>, ReaderError>)
        requires
            old(self).can_read_name(),
        ensures
            final(self).wf(),
            final(self).source() == old(self).source(),
            reader::resolves(
                |s: State| model::name_run(s, Task::Name),
                old(self)@,
                final(self)@,
                reader::str_step(r),
            ),
            r matches Ok(Step::NeedInput) ==> final(self).can_read_name(),
    {
        match self.next_name_value() {
            Err(e) => Err(e),
            Ok(Step::NeedInput) => Ok(Step::NeedInput),
            Ok(Step::Ready(value)) => Ok(Step::Ready(self.get_str(value))),
        }
    }

    /// Whether a member name may be skipped, or is being skipped.
    pub open spec fn can_skip_name(&self) -> bool {
        (self.wf() && self@.task == Task::SkipName && self@.skip_depth is None)
            || self.can_start_name()
    }

    /// Finishes a member name whose content has been skipped.
    #[verifier::spinoff_prover]
    pub(super) fn end_skipped_name(&mut self)
        requires
            old(self).wf(),
            old(self)@.task == Task::SkipName,
        ensures
            final(self).wf(),
            final(self).source() == old(self).source(),
            final(self)@ == model::name_end(old(self)@),
    {
        let ghost read = self@;
        if self.json_path.is_some() {
            let value = self.end_value(false);
            let name = self.get_string(value);
            self.set_member_name(name);
        } else {
            self.task = Task::Idle;
        }
        assert(self@ =~= model::name_end(read));
    }

    /// Skips a member name.
    pub fn skip_name(&mut self) -> (r: Result<Step<()>, ReaderError>)
        requires
            old(self).can_skip_name(),
        ensures
            final(self).wf(),
            final(self).source() == old(self).source(),
            reader::resolves(
                |s: State| reader::unit_outcome(model::name_run(s, Task::SkipName)),
                old(self)@,
                final(self)@,
                r,
            ),
            r matches Ok(Step::NeedInput) ==> final(self).can_skip_name(),
    {
        match self.read_name(Task::SkipName) {
            Err(e) => Err(e),
            Ok(Step::NeedInput) => {
                proof {
                    let run = |s: State| model::name_run(s, Task::SkipName);
                    let unit_run = |s: State| reader::unit_outcome(model::name_run(s, Task::SkipName));
                    assert forall|more: Seq<u8>, eof: bool|
                        unit_run(#[trigger] model::extend(old(self)@, more, eof)) == unit_run(
                            model::extend(self@, more, eof),
                        ) by {
                        assert(run(model::extend(old(self)@, more, eof)) == run(
                            model::extend(self@, more, eof),
                        ));
                    }
                }
                Ok(Step::NeedInput)
            },
            Ok(Step::Ready(_)) => {
                self.end_skipped_name();
                Ok(Step::Ready(()))
            },
        }
    }

    /// Whether a string may be read, or is being read.
    pub open spec fn can_read_string(&self) -> bool {
        (self.wf() && self@.task == Task::Text) || self.can_read_value()
    }

    /// Reads the content of a string.
    #[verifier::spinoff_prover]
    pub(super) fn read_string_value(&mut self) -> (r: Result<Step<()>, ReaderError>)
        requires
            old(self).can_read_string(),
        ensures
            final(self).wf(),
            final(self).source() == old(self).source(),
            r is Ok ==> model::received(final(self)@) == model::received(old(self)@),
            match r {
                Ok(Step::Ready(_)) => {
                    &&& final(self)@.task == Task::Text
                    &&& model::string_run(old(self)@) == Outcome::Ready(
                        model::text_chars(final(self)@.text),
                        model::value_end(final(self)@.idle()),
                    )
                    &&& model::structure_valid_before(final(self)@)
                },
                Ok(Step::NeedInput) => {
                    &&& model::string_run(old(self)@) == Outcome::<Seq<char>>::NeedMore(final(self)@)
                    &&& model::continues(
                        |s: State| model::string_run(s),
                        old(self)@,
                        final(self)@,
                    )
                    &&& model::undecided(final(self)@)
                    &&& final(self).can_read_string()
                },
                Err(e) => model::string_run(old(self)@) == Outcome::<Seq<char>>::Failed(
                    e@,
                    final(self)@,
                ),
            },
    {
        let ghost run = |s: State| model::string_run(s);
        if self.task != Task::Text {
            match self.start_expected_value_type(ValueType::String, false) {
                Err(e) => {
                    return Err(e);
                },
                Ok(Step::NeedInput) => {
                    proof {
                        resume::lemma_string_continues_before(old(self)@, self@);
                    }
                    return Ok(Step::NeedInput);
                },
                Ok(Step::Ready(_)) => {
                    let ghost started = self@;
                    self.input.begin_value();
                    self.task = Task::Text;
                    proof {
                        assert(self@ =~= (State {
                            task: Task::Text,
                            text: Seq::empty(),
                            ..started
                        }));
                        resume::lemma_string_continues_begun(old(self)@, self@);
                    }
                },
            }
        }
        let ghost begun = self@;
        match self.read_string() {
            Err(e) => Err(e),
            Ok(Step::NeedInput) => {
                proof {
                    resume::lemma_string_continues_text(begun, self@);
                    if old(self)@.task != Task::Text {
                        resume::lemma_continues_trans(run, old(self)@, begun, self@);
                    }
                }
                Ok(Step::NeedInput)
            },
            Ok(Step::Ready(_)) => Ok(Step::Ready(())),
        }
    }

    /// Reads a string.
    #[verifier::spinoff_prover]
    pub fn next_string(&mut self) -> (r: Result<Step<String>, ReaderError>)
        requires
            old(self).can_read_string(),
        ensures
            final(self).wf(),
            final(self).source() == old(self).source(),
            reader::resolves(
                |s: State| model::string_run(s),
                old(self)@,
                final(self)@,
                reader::text_step(r),
            ),
            r matches Ok(Step::NeedInput) ==> final(self).can_read_string(),
    {
        match self.read_string_value() {
            Err(e) => Err(e),
            Ok(Step::NeedInput) => Ok(Step::NeedInput),
            Ok(Step::Ready(_)) => {
                let value = self.end_value(false);
                let result = self.get_string(value);
                self.on_value_end();
                Ok(Step::Ready(result))
            },
        }
    }

    /// Reads a string. The result can be obtained with [`get_str`](Self::get_str).
    #[verifier::spinoff_prover]
    pub fn next_str_value(&mut self) -> (r: Result<Step<BytesValue>, ReaderError>)
        requires
            old(self).can_read_string(),
        ensures
            final(self).inv(),
            final(self).source() == old(self).source(),
            reader::resolves(
                |s: State| model::string_run(s),
                old(self)@,
                final(self)@,
                reader::value_step(*final(self), r),
            ),
            match r {
                Ok(Step::Ready(value)) => final(self).hands_out(value),
                Ok(Step::NeedInput) => final(self).can_read_string(),
                Err(_) => final(self).wf(),
            },
    {
        match self.read_string_value() {
            Err(e) => Err(e),
            Ok(Step::NeedInput) => Ok(Step::NeedInput),
            Ok(Step::Ready(_)) => {
                let value = self.end_value(true);
                self.on_value_end();
                Ok(Step::Ready(value))
            },
        }
    }

    /// Reads a string.
    pub fn next_str(&mut self) -> (r: Result<Step<&str>, ReaderError>)
        requires
            old(self).can_read_string(),
        ensures
            final(self).wf(),
            final(self).source() == old(self).source(),
            reader::resolves(
                |s: State| model::string_run(s),
                old(self)@,
                final(self)@,
                reader::str_step(r),
            ),
            r matches Ok(Step::NeedInput) ==> final(self).can_read_string(),
    {
        match self.next_str_value() {
            Err(e) => Err(e),
            Ok(Step::NeedInput) => Ok(Step::NeedInput),
            Ok(Step::Ready(value)) => Ok(Step::Ready(self.get_str(value))),
        }
    }
}

} // verus!
