//! Arrays, objects and literals.

use vstd::prelude::*;

use crate::model::{self, Outcome, PeekPhase, State, Task};
use crate::reader::{self, JsonStreamReader};
use crate::resume;
use crate::types::{
    self, JsonPathPiece, PathStep, PeekedValue, ReaderError, StackValue, Step,
    UnexpectedStructureKind, ValueType,
};

verus! {

impl<R> JsonStreamReader<R> {
    /// Enters an array or object whose token has been consumed.
    #[verifier::spinoff_prover]
    pub(super) fn start_container(&mut self, kind: StackValue)
        requires
            old(self).wf(),
            old(self)@.task == Task::Idle,
            old(self)@.peeked is None,
            old(self)@.phase == PeekPhase::Start,
            !old(self)@.string_reader_active,
            model::structure_valid_before(old(self)@),
            !model::too_deep(old(self)@),
        ensures
            final(self).wf(),
            final(self).source() == old(self).source(),
            final(self)@ == model::container_start(old(self)@, kind),
    {
        let ghost old_path = self@.path;
        self.stack.push(kind);
        // The new container is initially empty
        self.is_empty = true;
        match &mut self.json_path {
            Some(path) => {
                let ghost steps = types::path_view(path@);
                match kind {
                    StackValue::Array => {
                        path.push(JsonPathPiece::ArrayItem(0));
                        assert(types::path_view(path@) =~= steps.push(PathStep::Item(0)));
                    },
                    StackValue::Object => {
                        // Push a placeholder which is replaced once the name of the first member is read
                        path.push(JsonPathPiece::ObjectMember("<?>".to_owned()));
                        assert(types::path_view(path@) =~= steps.push(
                            PathStep::Member(model::unknown_name()),
                        ));
                    },
                }
            },
            None => {},
        }
        self.expects_member_name = match kind {
            // Only relevant for objects; will be restored when entering parent object (if any) again
            StackValue::Array => false,
            StackValue::Object => true,
        };
        assert(self@ =~= model::container_start(old(self)@, kind));
    }

    /// Notes that the end of an array or object has been consumed.
    #[verifier::spinoff_prover]
    pub(super) fn on_container_end(&mut self)
        requires
            old(self).wf(),
            old(self)@.task == Task::Idle,
            old(self)@.peeked is None,
            old(self)@.phase == PeekPhase::Start,
            !old(self)@.string_reader_active,
            old(self)@.stack.len() > 0,
            old(self)@.skip_depth matches Some(depth) ==> depth < old(self)@.stack.len(),
            model::structure_valid_before(old(self)@),
        ensures
            final(self).wf(),
            final(self).source() == old(self).source(),
            final(self)@ == model::container_end(old(self)@),
    {
        // Clear this in case current container is now an array; on_value_end() call below will set
        // it again if enclosing container is an object
        self.expects_member_name = false;
        self.stack.pop();
        match &mut self.json_path {
            Some(path) => {
                let ghost steps = types::path_view(path@);
                path.pop();
                assert(types::path_view(path@) =~= steps.drop_last());
            },
            None => {},
        }
        self.on_value_end();
        assert(self@ =~= model::container_end(old(self)@));
    }

    /// Enters an array or object, which has to be the next value.
    pub(super) fn on_container_start(&mut self, expected_value_type: ValueType, kind: StackValue) -> (r: Result<
        Step<()>,
        ReaderError,
    >)
        requires
            old(self).can_read_value(),
            expected_value_type == match kind {
                StackValue::Array => ValueType::Array,
                StackValue::Object => ValueType::Object,
            },
        ensures
            final(self).wf(),
            final(self).source() == old(self).source(),
            reader::resolves(|s: State| model::begin_run(s, kind), old(self)@, final(self)@, r),
            r matches Ok(Step::NeedInput) ==> final(self).can_read_value(),
    {
        match self.start_expected_value_type(expected_value_type, true) {
            Err(e) => Err(e),
            Ok(Step::NeedInput) => Ok(Step::NeedInput),
            Ok(Step::Ready(_)) => {
                self.start_container(kind);
                Ok(Step::Ready(()))
            },
        }
    }

    /// Leaves the current array or object.
    pub(super) fn end_container(&mut self) -> (r: Result<Step<()>, ReaderError>)
        requires
            old(self).can_look_ahead(),
            old(self)@.skip_depth is None,
            old(self)@.stack.len() > 0,
        ensures
            final(self).wf(),
            final(self).source() == old(self).source(),
            reader::resolves(|s: State| model::end_run(s), old(self)@, final(self)@, r),
            r matches Ok(Step::NeedInput) ==> final(self).can_look_ahead()
                && final(self)@.skip_depth is None
                && final(self)@.stack == old(self)@.stack
                && final(self)@.expects_member_name == old(self)@.expects_member_name,
    {
        let peeked = match self.peek_internal() {
            Err(e) => {
                return Err(e);
            },
            Ok(Step::NeedInput) => {
                return Ok(Step::NeedInput);
            },
            Ok(Step::Ready(p)) => p,
        };
        if peeked != PeekedValue::ArrayEnd && peeked != PeekedValue::ObjectEnd {
            return Err(
                self.create_structure_error(UnexpectedStructureKind::MoreElementsThanExpected),
            );
        }
        self.consume_peeked();
        self.on_container_end();
        Ok(Step::Ready(()))
    }

    /// Looks at the type of the next value, without consuming it.
    pub fn peek(&mut self) -> (r: Result<Step<ValueType>, ReaderError>)
        requires
            old(self).can_read_value(),
        ensures
            final(self).wf(),
            final(self).source() == old(self).source(),
            reader::resolves(|s: State| model::type_ahead_run(s), old(self)@, final(self)@, r),
            // Looking again gives the same type, and changes nothing
            r matches Ok(Step::Ready(ty)) ==> model::type_ahead_run(final(self)@)
                == Outcome::Ready(ty, final(self)@),
            r is Ok ==> final(self).can_read_value(),
    {
        match self.peek_internal() {
            Err(e) => Err(e),
            Ok(Step::NeedInput) => Ok(Step::NeedInput),
            Ok(Step::Ready(peeked)) => match self.map_peeked(peeked) {
                Err(e) => Err(e),
                Ok(ty) => Ok(Step::Ready(ty)),
            },
        }
    }

    /// Enters an array.
    pub fn begin_array(&mut self) -> (r: Result<Step<()>, ReaderError>)
        requires
            old(self).can_read_value(),
        ensures
            final(self).wf(),
            final(self).source() == old(self).source(),
            reader::resolves(
                |s: State| model::begin_run(s, StackValue::Array),
                old(self)@,
                final(self)@,
                r,
            ),
            r matches Ok(Step::NeedInput) ==> final(self).can_read_value(),
    {
        self.on_container_start(ValueType::Array, StackValue::Array)
    }

    /// Whether the current array may be left.
    pub open spec fn can_end_array(&self) -> bool {
        self.can_look_ahead() && self@.skip_depth is None && self@.in_array()
    }

    /// Leaves the current array, all of whose items have to have been consumed.
    pub fn end_array(&mut self) -> (r: Result<Step<()>, ReaderError>)
        requires
            old(self).can_end_array(),
        ensures
            final(self).wf(),
            final(self).source() == old(self).source(),
            reader::resolves(|s: State| model::end_run(s), old(self)@, final(self)@, r),
            r matches Ok(Step::NeedInput) ==> final(self).can_end_array(),
    {
        self.end_container()
    }

    /// Enters an object.
    pub fn begin_object(&mut self) -> (r: Result<Step<()>, ReaderError>)
        requires
            old(self).can_read_value(),
        ensures
            final(self).wf(),
            final(self).source() == old(self).source(),
            reader::resolves(
                |s: State| model::begin_run(s, StackValue::Object),
                old(self)@,
                final(self)@,
                r,
            ),
            r matches Ok(Step::NeedInput) ==> final(self).can_read_value(),
    {
        self.on_container_start(ValueType::Object, StackValue::Object)
    }

    /// Whether the current object may be left.
    pub open spec fn can_end_object(&self) -> bool {
        &&& self.can_look_ahead()
        &&& self@.skip_depth is None
        &&& self@.in_object()
        &&& !self@.expects_member_value()
    }

    /// Leaves the current object, all of whose members have to have been consumed.
    pub fn end_object(&mut self) -> (r: Result<Step<()>, ReaderError>)
        requires
            old(self).can_end_object(),
        ensures
            final(self).wf(),
            final(self).source() == old(self).source(),
            reader::resolves(|s: State| model::end_run(s), old(self)@, final(self)@, r),
            r matches Ok(Step::NeedInput) ==> final(self).can_end_object(),
    {
        self.end_container()
    }

    /// Whether it may be asked if another element follows.
    pub open spec fn can_ask_next(&self) -> bool {
        &&& self.can_look_ahead()
        &&& self@.skip_depth is None
        &&& !self@.expects_member_value()
        &&& self@.stack.len() == 0 ==> !self@.is_empty && self@.settings.allow_multiple_top_level
    }

    /// Whether another array item, object member or top-level value follows.
    pub fn has_next(&mut self) -> (r: Result<Step<bool>, ReaderError>)
        requires
            old(self).can_ask_next(),
        ensures
            final(self).wf(),
            final(self).source() == old(self).source(),
            reader::resolves(|s: State| model::has_next_run(s), old(self)@, final(self)@, r),
            r is Ok ==> final(self).can_ask_next(),
            final(self)@ == (State {
                place: final(self)@.place,
                comment: final(self)@.comment,
                rest: final(self)@.rest,
                phase: final(self)@.phase,
                peeked: final(self)@.peeked,
                ..old(self)@
            }),
            r matches Ok(Step::Ready(true)) ==> final(self)@.peeked is Some,
    {
        if self.stack.len() == 0 {
            match self.peek_internal_optional() {
                Err(e) => Err(e),
                Ok(Step::NeedInput) => Ok(Step::NeedInput),
                Ok(Step::Ready(None)) => Ok(Step::Ready(false)),
                Ok(Step::Ready(Some(peeked))) => Ok(
                    Step::Ready(
                        peeked != PeekedValue::ArrayEnd && peeked != PeekedValue::ObjectEnd,
                    ),
                ),
            }
        } else {
            match self.peek_internal() {
                Err(e) => {
                    proof {
                        resume::lemma_has_next_failed(old(self)@);
                    }
                    Err(e)
                },
                Ok(Step::NeedInput) => {
                    proof {
                        resume::lemma_has_next_continues(old(self)@, self@);
                    }
                    Ok(Step::NeedInput)
                },
                Ok(Step::Ready(peeked)) => Ok(
                    Step::Ready(
                        peeked != PeekedValue::ArrayEnd && peeked != PeekedValue::ObjectEnd,
                    ),
                ),
            }
        }
    }

    /// Reads a boolean.
    pub fn next_bool(&mut self) -> (r: Result<Step<bool>, ReaderError>)
        requires
            old(self).can_read_value(),
        ensures
            final(self).wf(),
            final(self).source() == old(self).source(),
            reader::resolves(|s: State| model::bool_run(s), old(self)@, final(self)@, r),
            r matches Ok(Step::NeedInput) ==> final(self).can_read_value(),
    {
        match self.start_expected_value_type(ValueType::Boolean, false) {
            Err(e) => Err(e),
            Ok(Step::NeedInput) => Ok(Step::NeedInput),
            Ok(Step::Ready(peeked)) => {
                self.on_value_end();
                Ok(Step::Ready(peeked == PeekedValue::BooleanTrue))
            },
        }
    }

    /// Reads a null.
    pub fn next_null(&mut self) -> (r: Result<Step<()>, ReaderError>)
        requires
            old(self).can_read_value(),
        ensures
            final(self).wf(),
            final(self).source() == old(self).source(),
            reader::resolves(|s: State| model::null_run(s), old(self)@, final(self)@, r),
            r matches Ok(Step::NeedInput) ==> final(self).can_read_value(),
    {
        match self.start_expected_value_type(ValueType::Null, false) {
            Err(e) => Err(e),
            Ok(Step::NeedInput) => Ok(Step::NeedInput),
            Ok(Step::Ready(_)) => {
                self.on_value_end();
                Ok(Step::Ready(()))
            },
        }
    }
}

} // verus!
