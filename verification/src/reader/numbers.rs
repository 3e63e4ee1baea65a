//! Numbers.

use vstd::prelude::*;

use crate::buffer::BytesValue;
use crate::chars;
use crate::model::{self, Outcome, State, Task};
use crate::number::{self, NumberScan};
use crate::reader::{self, JsonStreamReader};
use crate::resume;
use crate::token;
use crate::types::{ReaderError, Step, SyntaxErrorKind, ValueType};

verus! {

impl<R> JsonStreamReader<R> {
    /// Takes a byte of a number from the input.
    #[verifier::spinoff_prover]
    pub(super) fn take_number_byte(&mut self, scan: NumberScan)
        requires
            old(self).wf(),
            old(self)@.task is Number || old(self)@.task is SkipNumber,
            old(self)@.rest.len() > 0,
            number::number_next(model::number_scan(old(self)@.task), old(self)@.rest[0]) == Some(scan),
        ensures
            final(self).wf(),
            final(self).source() == old(self).source(),
            final(self)@ == model::number_moved(old(self)@, scan),
    {
        let ghost before = self@;
        match self.task {
            Task::SkipNumber(_) => {
                self.input.consume(1);
                self.task = Task::SkipNumber(scan);
            },
            _ => {
                proof {
                    number::lemma_scan_push(number::number_start(), before.text, before.rest[0]);
                    assert(before.text + before.rest.take(1) =~= before.text.push(before.rest[0]));
                }
                self.input.keep(1);
                self.task = Task::Number(scan);
            },
        }
        assert(self@ =~= model::number_moved(before, scan));
    }

    /// Judges a number which no further byte continues.
    #[verifier::spinoff_prover]
    pub(super) fn check_number(&mut self) -> (r: Result<(), ReaderError>)
        requires
            old(self).wf(),
            old(self)@.task is Number || old(self)@.task is SkipNumber,
        ensures
            final(self).wf(),
            final(self).source() == old(self).source(),
            match r {
                Ok(_) => {
                    &&& final(self)@ == old(self)@
                    &&& model::number_end(old(self)@) == Outcome::Ready(
                        old(self)@.text,
                        model::number_counted(old(self)@),
                    )
                },
                Err(e) => model::number_end(old(self)@) == Outcome::<Seq<u8>>::Failed(
                    e@,
                    final(self)@,
                ),
            },
    {
        let ghost before = self@;
        let (scan, skips) = match self.task {
            Task::Number(scan) => (scan, false),
            Task::SkipNumber(scan) => (scan, true),
            _ => {
                return Ok(());
            },
        };
        if !number::is_number_complete(scan.phase) {
            let e = self.create_syntax_value_error(SyntaxErrorKind::MalformedNumber);
            self.input.abandon_value();
            self.task = Task::Idle;
            assert(self@ =~= before.idle());
            return Err(e);
        }
        // Don't restrict number values while skipping

        if !skips && self.reader_settings.restrict_number_values {
            // >= e100, <= e-100 or complete number longer than 100 chars
            if scan.exponent_digits > 2 || scan.len > 100 {
                let location = self.create_error_location();
                proof {
                    number::lemma_number_ascii(number::number_start(), before.text);
                    chars::lemma_ascii_valid(before.text);
                }
                let value = self.end_value(false);
                let number = self.get_string(value);
                return Err(ReaderError::UnsupportedNumberValue { number, location });
            }
        }
        // Make sure there are no misleading chars directly afterwards, e.g. "123f"

        let next = self.input.available();
        if next.len() > 0 && !token::verify_value_separator(next[0]) {
            self.input.abandon_value();
            self.task = Task::Idle;
            self.advance(scan.len, scan.len);
            assert(self@ =~= model::number_counted(before));
            return Err(self.create_syntax_value_error(SyntaxErrorKind::TrailingDataAfterNumber));
        }
        Ok(())
    }

    /// Reads a number as far as it goes, and judges it.
    #[verifier::spinoff_prover]
    #[verifier::rlimit(40)]
    pub(super) fn read_number(&mut self) -> (r: Result<Step<()>, ReaderError>)
        requires
            old(self).wf(),
            old(self)@.task is Number || old(self)@.task is SkipNumber,
        ensures
            final(self).wf(),
            final(self).source() == old(self).source(),
            r is Ok ==> model::received(final(self)@) == model::received(old(self)@),
            match r {
                Ok(Step::Ready(_)) => model::number_rest_run(old(self)@) == Outcome::Ready(
                    final(self)@.text,
                    model::number_counted(final(self)@),
                ),
                Ok(Step::NeedInput) => {
                    &&& model::number_rest_run(old(self)@) == Outcome::<Seq<u8>>::NeedMore(final(self)@)
                    &&& model::continues(
                        |s: State| model::number_rest_run(s),
                        old(self)@,
                        final(self)@,
                    )
                    &&& model::undecided(final(self)@)
                },
                Err(e) => model::number_rest_run(old(self)@) == Outcome::<Seq<u8>>::Failed(
                    e@,
                    final(self)@,
                ),
            },
            r is Ok ==> {
                &&& final(self)@ == (State {
                    task: final(self)@.task,
                    text: final(self)@.text,
                    rest: final(self)@.rest,
                    ..old(self)@
                })
                &&& final(self)@.task is Number == old(self)@.task is Number
                &&& final(self)@.task is Number || final(self)@.task is SkipNumber
            },
            r matches Ok(Step::Ready(_)) ==> model::number_scan(final(self)@.task).len > 0,
    {
        let ghost run = |s: State| model::number_rest_run(s);
        loop
            invariant
                run == (|s: State| model::number_rest_run(s)),
                self.wf(),
                self.source() == old(self).source(),
                self@.task is Number || self@.task is SkipNumber,
                self@.task is Number == old(self)@.task is Number,
                self@ == (State {
                    task: self@.task,
                    text: self@.text,
                    rest: self@.rest,
                    ..old(self)@
                }),
                model::received(self@) == model::received(old(self)@),
                model::number_rest_run(old(self)@) == model::number_rest_run(self@),
                model::continues(run, old(self)@, self@),
            decreases self@.rest.len(),
        {
            let ghost before = self@;
            let available = self.input.available();
            if available.len() == 0 {
                if !self.input.is_eof() {
                    return Ok(Step::NeedInput);
                }
                return match self.check_number() {
                    Ok(_) => Ok(Step::Ready(())),
                    Err(e) => Err(e),
                };
            }
            let byte: u8 = available[0];
            let scan = match self.task {
                Task::Number(scan) => scan,
                Task::SkipNumber(scan) => scan,
                _ => NumberScan { phase: number::NumberPhase::Start, exponent_digits: 0, len: 0 },
            };
            match number::consume_number_byte(scan, byte) {
                Some(next) => {
                    self.take_number_byte(next);
                    proof {
                        assert forall|more: Seq<u8>, eof: bool|
                            run(#[trigger] model::extend(old(self)@, more, eof)) == run(
                                model::extend(self@, more, eof),
                            ) by {
                            resume::lemma_number_step(before, more, eof);
                            assert(run(model::extend(old(self)@, more, eof)) == run(
                                model::extend(before, more, eof),
                            ));
                        }
                    }
                },
                None => {
                    return match self.check_number() {
                        Ok(_) => Ok(Step::Ready(())),
                        Err(e) => Err(e),
                    };
                },
            }
        }
    }

    /// Whether a number may be read, or is being read.
    pub open spec fn can_read_number(&self) -> bool {
        (self.wf() && self@.task is Number) || self.can_read_value()
    }

    /// Reads a number.
    #[verifier::spinoff_prover]
    pub(super) fn read_number_bytes(&mut self, requires_borrowed: bool) -> (r: Result<
        Step<BytesValue>,
        ReaderError,
    >)
        requires
            old(self).can_read_number(),
        ensures
            final(self).inv(),
            final(self).source() == old(self).source(),
            reader::resolves(
                |s: State| model::number_run(s),
                old(self)@,
                final(self)@,
                reader::value_step(*final(self), r),
            ),
            match r {
                Ok(Step::Ready(value)) => final(self).provides(value) && (requires_borrowed ==> value
                    is BytesRef),
                Ok(Step::NeedInput) => final(self).can_read_number(),
                Err(_) => final(self).wf(),
            },
    {
        let ghost run = |s: State| model::number_run(s);
        let starts = match self.task {
            Task::Number(_) => false,
            _ => true,
        };
        if starts {
            match self.start_expected_value_type(ValueType::Number, false) {
                Err(e) => {
                    return Err(e);
                },
                Ok(Step::NeedInput) => {
                    proof {
                        resume::lemma_number_continues_before(old(self)@, self@);
                    }
                    return Ok(Step::NeedInput);
                },
                Ok(Step::Ready(_)) => {
                    let ghost started = self@;
                    self.input.begin_value();
                    self.task = Task::Number(
                        NumberScan {
                            phase: number::NumberPhase::Start,
                            exponent_digits: 0,
                            len: 0,
                        },
                    );
                    proof {
                        assert(self@ =~= (State {
                            task: Task::Number(number::number_start()),
                            text: Seq::empty(),
                            ..started
                        }));
                        resume::lemma_number_continues_begun(old(self)@, self@);
                    }
                },
            }
        }
        let ghost begun = self@;
        match self.read_number() {
            Err(e) => Err(e),
            Ok(Step::NeedInput) => {
                proof {
                    resume::lemma_number_continues_rest(begun, self@);
                    if !(old(self)@.task is Number) {
                        resume::lemma_continues_trans(run, old(self)@, begun, self@);
                    }
                }
                Ok(Step::NeedInput)
            },
            Ok(Step::Ready(_)) => {
                let ghost read = self@;
                let len: u64 = match self.task {
                    Task::Number(scan) => scan.len,
                    _ => 0,
                };
                proof {
                    // JSON number consists only of ASCII chars
                    number::lemma_number_ascii(number::number_start(), read.text);
                    chars::lemma_ascii_valid(read.text);
                }
                let value = self.end_value(requires_borrowed);
                self.advance(len, len);
                assert(self@ =~= model::number_counted(read));
                self.on_value_end();
                Ok(Step::Ready(value))
            },
        }
    }

    /// Reads a number and returns its string representation.
    pub fn next_number_as_string(&mut self) -> (r: Result<Step<String>, ReaderError>)
        requires
            old(self).can_read_number(),
        ensures
            final(self).wf(),
            final(self).source() == old(self).source(),
            reader::resolves(
                |s: State| model::number_run(s),
                old(self)@,
                final(self)@,
                reader::text_step(r),
            ),
            r matches Ok(Step::NeedInput) ==> final(self).can_read_number(),
    {
        match self.read_number_bytes(false) {
            Err(e) => Err(e),
            Ok(Step::NeedInput) => Ok(Step::NeedInput),
            Ok(Step::Ready(value)) => Ok(Step::Ready(self.get_string(value))),
        }
    }

    /// Reads a number. Its string representation can be obtained with
    /// [`get_str`](Self::get_str).
    pub fn next_number_value(&mut self) -> (r: Result<Step<BytesValue>, ReaderError>)
        requires
            old(self).can_read_number(),
        ensures
            final(self).inv(),
            final(self).source() == old(self).source(),
            reader::resolves(
                |s: State| model::number_run(s),
                old(self)@,
                final(self)@,
                reader::value_step(*final(self), r),
            ),
            match r {
                Ok(Step::Ready(value)) => final(self).hands_out(value),
                Ok(Step::NeedInput) => final(self).can_read_number(),
                Err(_) => final(self).wf(),
            },
    {
        self.read_number_bytes(true)
    }

    /// Reads a number and returns its string representation.
    pub fn next_number_as_str(&mut self) -> (r: Result<Step<&str>, ReaderError>)
        requires
            old(self).can_read_number(),
        ensures
            final(self).wf(),
            final(self).source() == old(self).source(),
            reader::resolves(
                |s: State| model::number_run(s),
                old(self)@,
                final(self)@,
                reader::str_step(r),
            ),
            r matches Ok(Step::NeedInput) ==> final(self).can_read_number(),
    {
        match self.next_number_value() {
            Err(e) => Err(e),
            Ok(Step::NeedInput) => Ok(Step::NeedInput),
            Ok(Step::Ready(value)) => Ok(Step::Ready(self.get_str(value))),
        }
    }
}

} // verus!
