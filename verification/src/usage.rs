//! Which operations may be called in which state.

use vstd::prelude::*;

use crate::model::{State, Task};

verus! {

/// The operations of the reader, as far as they differ in when they may be called.
#[derive(Clone, Copy, PartialEq, Eq, Structural, Debug)]
pub enum Operation {
    Peek,
    /// Reading a value, other than a string or number.
    ReadValue,
    NextString,
    NextNumber,
    EndArray,
    EndObject,
    HasNext,
    NextName,
    SkipName,
    SkipValue,
    SkipToTopLevel,
    ConsumeTrailingWhitespace,
}

/// Why an operation must not be called.
#[derive(Clone, Copy, PartialEq, Eq, Structural, Debug)]
pub enum Misuse {
    PeekWithStringReader,
    PeekBehindTopLevel,
    PeekAtMemberName,
    ReadAtMemberName,
    NameNotExpected,
    NameWithStringReader,
    EndArrayOutsideArray,
    EndObjectOutsideObject,
    EndObjectAtMemberValue,
    HasNextAtMemberValue,
    HasNextBeforeTopLevel,
    HasNextSingleTopLevel,
    SkipAtMemberName,
    SkipToTopLevelWithStringReader,
    TrailingWithStringReader,
    TrailingBeforeTopLevel,
    TrailingInsideTopLevel,
    OtherOperationUnfinished,
}

/// Why the next token must not be looked at.
pub open spec fn look_ahead_misuse(st: State) -> Option<Misuse> {
    if st.string_reader_active {
        Some(Misuse::PeekWithStringReader)
    } else if st.peeked is None && st.behind_top_level() && !st.settings.allow_multiple_top_level {
        Some(Misuse::PeekBehindTopLevel)
    } else {
        None
    }
}

/// Why it must not be asked whether another element follows.
pub open spec fn has_next_misuse(st: State) -> Option<Misuse> {
    if st.expects_member_value() {
        Some(Misuse::HasNextAtMemberValue)
    } else if st.stack.len() == 0 && st.is_empty {
        Some(Misuse::HasNextBeforeTopLevel)
    } else if st.stack.len() == 0 && !st.settings.allow_multiple_top_level {
        Some(Misuse::HasNextSingleTopLevel)
    } else {
        look_ahead_misuse(st)
    }
}

/// Why a member name must not be read.
pub open spec fn name_misuse(st: State) -> Option<Misuse> {
    if !st.expects_member_name {
        Some(Misuse::NameNotExpected)
    } else if st.string_reader_active {
        Some(Misuse::NameWithStringReader)
    } else {
        has_next_misuse(st)
    }
}

/// Whether the operation has been called already and waits for input.
pub open spec fn is_unfinished(st: State, operation: Operation) -> bool {
    let skipping = st.skip_depth is Some && (st.task == Task::Idle && st.peeked is None
        && st.behind_top_level() ==> st.settings.allow_multiple_top_level);
    match operation {
        Operation::NextString => st.task == Task::Text,
        Operation::NextNumber => st.task is Number,
        Operation::NextName => st.task == Task::Name,
        Operation::SkipName => st.task == Task::SkipName && st.skip_depth is None,
        Operation::SkipValue => skipping,
        Operation::SkipToTopLevel => skipping || (st.task == Task::SkipName && st.skip_depth
            is None),
        _ => false,
    }
}

/// Why the operation must not be called; `None` if it may be called.
pub open spec fn misuse_of(st: State, operation: Operation) -> Option<Misuse> {
    if is_unfinished(st, operation) {
        None
    } else if st.task != Task::Idle || st.skip_depth is Some {
        Some(Misuse::OtherOperationUnfinished)
    } else {
        match operation {
            Operation::Peek => if st.expects_member_name {
                Some(Misuse::PeekAtMemberName)
            } else {
                look_ahead_misuse(st)
            },
            Operation::SkipValue => if st.expects_member_name {
                Some(Misuse::SkipAtMemberName)
            } else {
                look_ahead_misuse(st)
            },
            Operation::EndArray => if !st.in_array() {
                Some(Misuse::EndArrayOutsideArray)
            } else {
                look_ahead_misuse(st)
            },
            Operation::EndObject => if !st.in_object() {
                Some(Misuse::EndObjectOutsideObject)
            } else if st.expects_member_value() {
                Some(Misuse::EndObjectAtMemberValue)
            } else {
                look_ahead_misuse(st)
            },
            Operation::HasNext => has_next_misuse(st),
            Operation::NextName => name_misuse(st),
            Operation::SkipName => name_misuse(st),
            Operation::SkipToTopLevel => if st.string_reader_active {
                Some(Misuse::SkipToTopLevelWithStringReader)
            } else {
                None
            },
            Operation::ConsumeTrailingWhitespace => if st.string_reader_active {
                Some(Misuse::TrailingWithStringReader)
            } else if st.stack.len() > 0 {
                Some(Misuse::TrailingInsideTopLevel)
            } else if st.is_empty {
                Some(Misuse::TrailingBeforeTopLevel)
            } else {
                None
            },
            _ => if st.expects_member_name {
                Some(Misuse::ReadAtMemberName)
            } else {
                look_ahead_misuse(st)
            },
        }
    }
}

impl Misuse {
    /// Describes the misuse.
    pub fn message(self) -> (r: &'static str)
        ensures
            r@ == message_of(self),
    {
        match self {
            Misuse::PeekWithStringReader =>
                "Incorrect reader usage: Cannot peek when string value reader is active",
            Misuse::PeekBehindTopLevel =>
                "Incorrect reader usage: Cannot peek when top-level value has already been consumed and multiple top-level values are not enabled in settings",
            Misuse::PeekAtMemberName =>
                "Incorrect reader usage: Cannot peek value when expecting member name",
            Misuse::ReadAtMemberName =>
                "Incorrect reader usage: Cannot read value when expecting member name",
            Misuse::NameNotExpected =>
                "Incorrect reader usage: Cannot consume member name when not expecting it",
            Misuse::NameWithStringReader =>
                "Incorrect reader usage: Cannot consume member name when string value reader is active",
            Misuse::EndArrayOutsideArray =>
                "Incorrect reader usage: Cannot end array when not inside array",
            Misuse::EndObjectOutsideObject =>
                "Incorrect reader usage: Cannot end object when not inside object",
            Misuse::EndObjectAtMemberValue =>
                "Incorrect reader usage: Cannot end object when member value is expected",
            Misuse::HasNextAtMemberValue =>
                "Incorrect reader usage: Cannot check for next element when member value is expected",
            Misuse::HasNextBeforeTopLevel =>
                "Incorrect reader usage: Cannot check for next element when top-level value has not been started",
            Misuse::HasNextSingleTopLevel =>
                "Incorrect reader usage: Cannot check for multiple top-level values when not enabled in the reader settings",
            Misuse::SkipAtMemberName =>
                "Incorrect reader usage: Cannot skip value when expecting member name",
            Misuse::SkipToTopLevelWithStringReader =>
                "Incorrect reader usage: Cannot skip to top-level when string value reader is active",
            Misuse::TrailingWithStringReader =>
                "Incorrect reader usage: Cannot consume trailing whitespace when string value reader is active",
            Misuse::TrailingBeforeTopLevel =>
                "Incorrect reader usage: Cannot skip trailing whitespace when top-level value has not been consumed yet",
            Misuse::TrailingInsideTopLevel =>
                "Incorrect reader usage: Cannot skip trailing whitespace when top-level value has not been fully consumed yet",
            Misuse::OtherOperationUnfinished =>
                "Incorrect reader usage: Cannot start an operation when another one has not been completed",
        }
    }
}

/// The description of a misuse.
pub open spec fn message_of(misuse: Misuse) -> Seq<char> {
    match misuse {
        Misuse::PeekWithStringReader =>
            "Incorrect reader usage: Cannot peek when string value reader is active"@,
        Misuse::PeekBehindTopLevel =>
            "Incorrect reader usage: Cannot peek when top-level value has already been consumed and multiple top-level values are not enabled in settings"@,
        Misuse::PeekAtMemberName =>
            "Incorrect reader usage: Cannot peek value when expecting member name"@,
        Misuse::ReadAtMemberName =>
            "Incorrect reader usage: Cannot read value when expecting member name"@,
        Misuse::NameNotExpected =>
            "Incorrect reader usage: Cannot consume member name when not expecting it"@,
        Misuse::NameWithStringReader =>
            "Incorrect reader usage: Cannot consume member name when string value reader is active"@,
        Misuse::EndArrayOutsideArray =>
            "Incorrect reader usage: Cannot end array when not inside array"@,
        Misuse::EndObjectOutsideObject =>
            "Incorrect reader usage: Cannot end object when not inside object"@,
        Misuse::EndObjectAtMemberValue =>
            "Incorrect reader usage: Cannot end object when member value is expected"@,
        Misuse::HasNextAtMemberValue =>
            "Incorrect reader usage: Cannot check for next element when member value is expected"@,
        Misuse::HasNextBeforeTopLevel =>
            "Incorrect reader usage: Cannot check for next element when top-level value has not been started"@,
        Misuse::HasNextSingleTopLevel =>
            "Incorrect reader usage: Cannot check for multiple top-level values when not enabled in the reader settings"@,
        Misuse::SkipAtMemberName =>
            "Incorrect reader usage: Cannot skip value when expecting member name"@,
        Misuse::SkipToTopLevelWithStringReader =>
            "Incorrect reader usage: Cannot skip to top-level when string value reader is active"@,
        Misuse::TrailingWithStringReader =>
            "Incorrect reader usage: Cannot consume trailing whitespace when string value reader is active"@,
        Misuse::TrailingBeforeTopLevel =>
            "Incorrect reader usage: Cannot skip trailing whitespace when top-level value has not been consumed yet"@,
        Misuse::TrailingInsideTopLevel =>
            "Incorrect reader usage: Cannot skip trailing whitespace when top-level value has not been fully consumed yet"@,
        Misuse::OtherOperationUnfinished =>
            "Incorrect reader usage: Cannot start an operation when another one has not been completed"@,
    }
}

} // verus!
