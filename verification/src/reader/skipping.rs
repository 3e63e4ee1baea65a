//! Skipping values.

use vstd::prelude::*;

use crate::model::{self, Outcome, State, Task};
use crate::number::{self, NumberScan};
use crate::reader::{self, JsonStreamReader};
use crate::resume;
use crate::types::{PeekedValue, ReaderError, StackValue, Step, UnexpectedStructureKind};

verus! {

impl<R> JsonStreamReader<R> {
    /// Whether a value is being skipped.
    pub open spec fn is_skipping(&self) -> bool {
        &&& self.wf()
        &&& self@.skip_depth is Some
        &&& self@.task == Task::Idle && self@.peeked is None && self@.behind_top_level()
            ==> self@.settings.allow_multiple_top_level
    }

    /// Skips a number whose first character has not been skipped yet, or the remainder of a
    /// number.
    #[verifier::spinoff_prover]
    pub(super) fn skip_number(&mut self) -> (r: Result<Step<()>, ReaderError>)
        requires
            old(self).wf(),
            old(self)@.task is SkipNumber,
        ensures
            final(self).wf(),
            final(self).source() == old(self).source(),
            r is Ok ==> model::received(final(self)@) == model::received(old(self)@),
            match r {
                Ok(Step::Ready(_)) => model::skip_number_run(old(self)@) == Outcome::Ready(
                    (),
                    final(self)@,
                ) && final(self)@.task == Task::Idle,
                Ok(Step::NeedInput) => {
                    &&& model::skip_number_run(old(self)@) == Outcome::<()>::NeedMore(final(self)@)
                    &&& model::continues(
                        |s: State| model::number_rest_run(s),
                        old(self)@,
                        final(self)@,
                    )
                    &&& model::undecided(final(self)@)
                    &&& final(self)@.task is SkipNumber
                },
                Err(e) => model::skip_number_run(old(self)@) == Outcome::<()>::Failed(
                    e@,
                    final(self)@,
                ),
            },
            r is Ok ==> final(self)@.skip_depth == old(self)@.skip_depth && final(self)@.stack
                == old(self)@.stack && final(self)@.settings == old(self)@.settings
                && final(self)@.is_empty == (r matches Ok(Step::NeedInput) && old(self)@.is_empty),
    {
        match self.read_number() {
            Err(e) => Err(e),
            Ok(Step::NeedInput) => Ok(Step::NeedInput),
            Ok(Step::Ready(_)) => {
                let ghost read = self@;
                let len: u64 = match self.task {
                    Task::SkipNumber(scan) => scan.len,
                    _ => 0,
                };
                self.task = Task::Idle;
                self.advance(len, len);
                assert(self@ =~= model::number_counted(read));
                self.on_value_end();
                Ok(Step::Ready(()))
            },
        }
    }

    /// Skips the token which has been recognized, but not a number.
    #[verifier::spinoff_prover]
    #[verifier::rlimit(40)]
    pub(super) fn skip_token(&mut self, peeked: PeekedValue) -> (r: Result<(), ReaderError>)
        requires
            old(self).wf(),
            old(self)@.skip_depth is Some,
            old(self)@.peeked == Some(peeked),
            peeked != PeekedValue::NumberStart,
        ensures
            final(self).wf(),
            final(self).source() == old(self).source(),
            r is Ok ==> model::received(final(self)@) == model::received(old(self)@),
            match r {
                Ok(_) => model::skip_token_run(peeked, old(self)@) == Outcome::Ready(
                    (),
                    final(self)@,
                ),
                Err(e) => model::skip_token_run(peeked, old(self)@) == Outcome::<()>::Failed(
                    e@,
                    final(self)@,
                ),
            },
            r is Ok ==> final(self)@.skip_depth is Some,
    {
        let depth: u64 = match self.skip_depth {
            Some(depth) => depth,
            None => 0,
        };
        match peeked {
            PeekedValue::ArrayEnd | PeekedValue::ObjectEnd => {
                if depth == 0 {
                    return Err(
                        self.create_structure_error(
                            UnexpectedStructureKind::FewerElementsThanExpected,
                        ),
                    );
                }
                self.consume_peeked();
                self.skip_depth = Some(depth - 1);
                self.on_container_end();
                Ok(())
            },
            PeekedValue::NameStart => {
                let ghost found = self@;
                self.consume_peeked();
                self.expects_member_name = false;
                if self.json_path.is_some() {
                    self.input.begin_value();
                }
                self.task = Task::SkipName;
                assert(self@ =~= model::name_start(found, Task::SkipName));
                Ok(())
            },
            PeekedValue::ArrayStart | PeekedValue::ObjectStart => {
                if let Some(max_nesting_depth) = self.exceeds_nesting_depth() {
                    return Err(
                        ReaderError::MaxNestingDepthExceeded {
                            max_nesting_depth,
                            location: self.create_error_location(),
                        },
                    );
                }
                let kind = if peeked == PeekedValue::ArrayStart {
                    StackValue::Array
                } else {
                    StackValue::Object
                };
                let ghost found = self@;
                self.consume_peeked();
                self.start_container(kind);
                self.skip_depth = Some(depth + 1);
                assert(self@ =~= model::container_start(
                    State { skip_depth: Some((depth + 1) as u64), ..model::consume_token(found) },
                    kind,
                ));
                Ok(())
            },
            PeekedValue::StringStart => {
                let ghost found = self@;
                self.consume_peeked();
                self.task = Task::SkipText;
                assert(self@ =~= (State {
                    task: Task::SkipText,
                    text: Seq::empty(),
                    ..model::consume_token(found)
                }));
                Ok(())
            },
            _ => {
                self.consume_peeked();
                self.on_value_end();
                Ok(())
            },
        }
    }

    /// Skips the remainder of what is being read, or else the next token.
    #[verifier::spinoff_prover]
    #[verifier::rlimit(60)]
    pub(super) fn skip_step(&mut self) -> (r: Result<Step<()>, ReaderError>)
        requires
            old(self).is_skipping(),
        ensures
            final(self).wf(),
            final(self).source() == old(self).source(),
            reader::resolves(|s: State| model::skip_step_run(s), old(self)@, final(self)@, r),
            r is Ok ==> final(self)@.skip_depth is Some,
            r matches Ok(Step::NeedInput) ==> final(self).is_skipping(),
    {
        let ghost run = |s: State| model::skip_step_run(s);
        match self.task {
            Task::SkipName => match self.read_string() {
                Err(e) => Err(e),
                Ok(Step::NeedInput) => {
                    proof {
                        resume::lemma_skip_step_continues_text(old(self)@, self@);
                    }
                    Ok(Step::NeedInput)
                },
                Ok(Step::Ready(_)) => {
                    self.end_skipped_name();
                    Ok(Step::Ready(()))
                },
            },
            Task::SkipText => match self.read_string() {
                Err(e) => Err(e),
                Ok(Step::NeedInput) => {
                    proof {
                        resume::lemma_skip_step_continues_text(old(self)@, self@);
                    }
                    Ok(Step::NeedInput)
                },
                Ok(Step::Ready(_)) => {
                    let ghost read = self@;
                    self.task = Task::Idle;
                    assert(self@ =~= read.idle());
                    self.on_value_end();
                    Ok(Step::Ready(()))
                },
            },
            Task::SkipNumber(_) => match self.skip_number() {
                Err(e) => Err(e),
                Ok(Step::NeedInput) => {
                    proof {
                        resume::lemma_skip_step_continues_number(old(self)@, self@);
                    }
                    Ok(Step::NeedInput)
                },
                Ok(Step::Ready(_)) => Ok(Step::Ready(())),
            },
            _ => {
                let peeked = match self.peek_internal() {
                    Err(e) => {
                        return Err(e);
                    },
                    Ok(Step::NeedInput) => {
                        proof {
                            resume::lemma_skip_step_continues_token(old(self)@, self@);
                        }
                        return Ok(Step::NeedInput);
                    },
                    Ok(Step::Ready(p)) => p,
                };
                if peeked != PeekedValue::NumberStart {
                    return match self.skip_token(peeked) {
                        Err(e) => Err(e),
                        Ok(_) => Ok(Step::Ready(())),
                    };
                }
                let ghost found = self@;
                self.consume_peeked();
                self.task = Task::SkipNumber(
                    NumberScan { phase: number::NumberPhase::Start, exponent_digits: 0, len: 0 },
                );
                let ghost begun = self@;
                proof {
                    assert(begun =~= (State {
                        task: Task::SkipNumber(number::number_start()),
                        text: Seq::empty(),
                        ..model::consume_token(found)
                    }));
                    resume::lemma_skip_step_continues_begun(old(self)@, begun);
                }
                match self.skip_number() {
                    Err(e) => Err(e),
                    Ok(Step::NeedInput) => {
                        proof {
                            resume::lemma_skip_step_continues_number(begun, self@);
                            resume::lemma_continues_trans(run, old(self)@, begun, self@);
                        }
                        Ok(Step::NeedInput)
                    },
                    Ok(Step::Ready(_)) => Ok(Step::Ready(())),
                }
            },
        }
    }

    /// Skips a value, where this has been started already.
    #[verifier::spinoff_prover]
    #[verifier::rlimit(40)]
    pub(super) fn skip_rest(&mut self) -> (r: Result<Step<()>, ReaderError>)
        requires
            old(self).is_skipping(),
        ensures
            final(self).wf(),
            final(self).source() == old(self).source(),
            reader::resolves(|s: State| model::skip_rest_run(s), old(self)@, final(self)@, r),
            r matches Ok(Step::NeedInput) ==> final(self).is_skipping(),
            r matches Ok(Step::Ready(_)) ==> final(self)@.task == Task::Idle
                && final(self)@.skip_depth is None && !final(self)@.string_reader_active,
    {
        let ghost run = |s: State| model::skip_rest_run(s);
        loop
            invariant
                run == (|s: State| model::skip_rest_run(s)),
                self.is_skipping(),
                self.source() == old(self).source(),
                model::received(self@) == model::received(old(self)@),
                model::skip_rest_run(old(self)@) == model::skip_rest_run(self@),
                model::continues(run, old(self)@, self@),
            decreases model::work(self@),
        {
            let ghost before = self@;
            proof {
                model::lemma_skip_step_work(before);
            }
            match self.skip_step() {
                Err(e) => {
                    let ghost failed = self@;
                    self.skip_depth = None;
                    assert(self@ =~= model::skip_abandoned(failed));
                    return Err(e);
                },
                Ok(Step::NeedInput) => {
                    proof {
                        resume::lemma_skip_rest_continues(before, self@);
                        resume::lemma_continues_trans(run, old(self)@, before, self@);
                    }
                    return Ok(Step::NeedInput);
                },
                Ok(Step::Ready(_)) => {
                    if self.skip_depth == Some(0u64) && self.task == Task::Idle {
                        self.skip_depth = None;
                        return Ok(Step::Ready(()));
                    }
                    proof {
                        resume::lemma_skip_rest_continues_step(before, self@);
                        resume::lemma_continues_trans(run, old(self)@, before, self@);
                    }
                },
            }
        }
    }

    /// Whether a value may be skipped, or is being skipped.
    pub open spec fn can_skip_value(&self) -> bool {
        self.is_skipping() || self.can_read_value()
    }

    /// Skips a value.
    pub fn skip_value(&mut self) -> (r: Result<Step<()>, ReaderError>)
        requires
            old(self).can_skip_value(),
        ensures
            final(self).wf(),
            final(self).source() == old(self).source(),
            reader::resolves(|s: State| model::skip_run(s), old(self)@, final(self)@, r),
            r matches Ok(Step::NeedInput) ==> final(self).can_skip_value(),
    {
        if self.skip_depth.is_none() {
            self.skip_depth = Some(0);
            assert(self@ =~= model::skip_start(old(self)@));
        }
        match self.skip_rest() {
            Err(e) => Err(e),
            Ok(Step::NeedInput) => {
                proof {
                    resume::lemma_skip_continues(old(self)@, self@);
                }
                Ok(Step::NeedInput)
            },
            Ok(Step::Ready(_)) => Ok(Step::Ready(())),
        }
    }

    /// Whether the remainder of the top-level value may be skipped, or is being skipped.
    pub open spec fn can_skip_to_top_level(&self) -> bool {
        &&& self.wf()
        &&& !self@.string_reader_active
        &&& self@.skip_depth is Some ==> self.is_skipping()
        &&& self@.skip_depth is None ==> self@.task == Task::Idle || self@.task == Task::SkipName
    }

    /// Skips the remainder of what is being read, or else the next name or value, or leaves the
    /// current array or object.
    #[verifier::spinoff_prover]
    #[verifier::rlimit(60)]
    pub(super) fn top_step(&mut self) -> (r: Result<Step<()>, ReaderError>)
        requires
            old(self).can_skip_to_top_level(),
            !resume::top_done(old(self)@),
        ensures
            final(self).wf(),
            final(self).source() == old(self).source(),
            reader::resolves(|s: State| model::top_step_run(s), old(self)@, final(self)@, r),
            r is Ok ==> final(self).can_skip_to_top_level(),
            r matches Ok(Step::NeedInput) ==> !resume::top_done(final(self)@),
    {
        if self.skip_depth.is_some() {
            return match self.skip_rest() {
                Err(e) => Err(e),
                Ok(Step::NeedInput) => {
                    proof {
                        resume::lemma_top_step_continues_skip(old(self)@, old(self)@, self@);
                    }
                    Ok(Step::NeedInput)
                },
                Ok(Step::Ready(_)) => Ok(Step::Ready(())),
            };
        }
        if self.task == Task::SkipName {
            return match self.read_string() {
                Err(e) => Err(e),
                Ok(Step::NeedInput) => {
                    proof {
                        resume::lemma_top_step_continues_name(old(self)@, self@);
                    }
                    Ok(Step::NeedInput)
                },
                Ok(Step::Ready(_)) => {
                    self.end_skipped_name();
                    Ok(Step::Ready(()))
                },
            };
        }
        if self.expects_member_value() {
            self.skip_depth = Some(0);
            let ghost start = self@;
            assert(start =~= model::skip_start(old(self)@));
            return match self.skip_rest() {
                Err(e) => Err(e),
                Ok(Step::NeedInput) => {
                    proof {
                        resume::lemma_top_step_continues_skip(old(self)@, start, self@);
                    }
                    Ok(Step::NeedInput)
                },
                Ok(Step::Ready(_)) => Ok(Step::Ready(())),
            };
        }
        let peeked = match self.peek_internal() {
            Err(e) => {
                return Err(e);
            },
            Ok(Step::NeedInput) => {
                proof {
                    resume::lemma_top_step_continues_token(old(self)@, self@);
                }
                return Ok(Step::NeedInput);
            },
            Ok(Step::Ready(p)) => p,
        };
        let ghost found = self@;
        if peeked == PeekedValue::ArrayEnd || peeked == PeekedValue::ObjectEnd {
            self.consume_peeked();
            self.on_container_end();
            Ok(Step::Ready(()))
        } else if peeked == PeekedValue::NameStart {
            self.consume_peeked();
            self.expects_member_name = false;
            if self.json_path.is_some() {
                self.input.begin_value();
            }
            self.task = Task::SkipName;
            assert(self@ =~= model::name_start(found, Task::SkipName));
            Ok(Step::Ready(()))
        } else {
            self.skip_depth = Some(0);
            assert(self@ =~= model::skip_start(found));
            match self.skip_rest() {
                Err(e) => Err(e),
                Ok(Step::NeedInput) => {
                    proof {
                        resume::lemma_top_step_continues_value(old(self)@, found, self@);
                    }
                    Ok(Step::NeedInput)
                },
                Ok(Step::Ready(_)) => Ok(Step::Ready(())),
            }
        }
    }

    /// Skips the remainder of the current top-level value.
    #[verifier::spinoff_prover]
    pub fn skip_to_top_level(&mut self) -> (r: Result<Step<()>, ReaderError>)
        requires
            old(self).can_skip_to_top_level(),
        ensures
            final(self).wf(),
            final(self).source() == old(self).source(),
            reader::resolves(|s: State| model::top_run(s), old(self)@, final(self)@, r),
            r matches Ok(Step::NeedInput) ==> final(self).can_skip_to_top_level(),
    {
        let ghost run = |s: State| model::top_run(s);
        loop
            invariant
                run == (|s: State| model::top_run(s)),
                self.can_skip_to_top_level(),
                self.source() == old(self).source(),
                model::received(self@) == model::received(old(self)@),
                model::top_run(old(self)@) == model::top_run(self@),
                model::continues(run, old(self)@, self@),
            decreases model::work(self@),
        {
            if self.stack.len() == 0 && self.skip_depth.is_none() && self.task == Task::Idle {
                return Ok(Step::Ready(()));
            }
            let ghost before = self@;
            proof {
                model::lemma_top_step_work(before);
            }
            match self.top_step() {
                Err(e) => {
                    return Err(e);
                },
                Ok(Step::NeedInput) => {
                    proof {
                        resume::lemma_top_continues(before, self@);
                        resume::lemma_continues_trans(run, old(self)@, before, self@);
                    }
                    return Ok(Step::NeedInput);
                },
                Ok(Step::Ready(_)) => {
                    proof {
                        resume::lemma_top_continues_step(before, self@);
                        resume::lemma_continues_trans(run, old(self)@, before, self@);
                    }
                },
            }
        }
    }
}

} // verus!
