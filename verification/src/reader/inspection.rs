//! Telling which operations may be called, and describing the reader.

use vstd::prelude::*;

use crate::model::Task;
use crate::preview::{self, preview_buffer, ReaderDescription};
use crate::reader::JsonStreamReader;
use crate::types::{self, StackValue};
use crate::usage::{self, Misuse, Operation};

verus! {

impl<R> JsonStreamReader<R> {
    /// Whether the operation may be called.
    pub open spec fn usable(&self, operation: Operation) -> bool {
        match operation {
            Operation::Peek => self.can_read_value(),
            Operation::ReadValue => self.can_read_value(),
            Operation::NextString => self.can_read_string(),
            Operation::NextNumber => self.can_read_number(),
            Operation::EndArray => self.can_end_array(),
            Operation::EndObject => self.can_end_object(),
            Operation::HasNext => self.can_ask_next(),
            Operation::NextName => self.can_read_name(),
            Operation::SkipName => self.can_skip_name(),
            Operation::SkipValue => self.can_skip_value(),
            Operation::SkipToTopLevel => self.can_skip_to_top_level(),
            Operation::ConsumeTrailingWhitespace => self.can_consume_trailing(),
        }
    }

    pub(super) fn check_look_ahead(&self) -> (r: Option<Misuse>)
        ensures
            r == usage::look_ahead_misuse(self@),
    {
        if self.is_string_value_reader_active {
            Some(Misuse::PeekWithStringReader)
        } else if self.peeked.is_none() && self.is_behind_top_level()
            && !self.reader_settings.allow_multiple_top_level {
            Some(Misuse::PeekBehindTopLevel)
        } else {
            None
        }
    }

    pub(super) fn check_has_next(&self) -> (r: Option<Misuse>)
        ensures
            r == usage::has_next_misuse(self@),
    {
        if self.expects_member_value() {
            Some(Misuse::HasNextAtMemberValue)
        } else if self.stack.len() == 0 && self.is_empty {
            Some(Misuse::HasNextBeforeTopLevel)
        } else if self.stack.len() == 0 && !self.reader_settings.allow_multiple_top_level {
            Some(Misuse::HasNextSingleTopLevel)
        } else {
            self.check_look_ahead()
        }
    }

    pub(super) fn check_name(&self) -> (r: Option<Misuse>)
        ensures
            r == usage::name_misuse(self@),
    {
        if !self.expects_member_name {
            Some(Misuse::NameNotExpected)
        } else if self.is_string_value_reader_active {
            Some(Misuse::NameWithStringReader)
        } else {
            self.check_has_next()
        }
    }

    pub(super) fn check_unfinished(&self, operation: Operation) -> (r: bool)
        ensures
            r == usage::is_unfinished(self@, operation),
    {
        let skipping = self.skip_depth.is_some() && (!(self.task == Task::Idle
            && self.peeked.is_none() && self.is_behind_top_level())
            || self.reader_settings.allow_multiple_top_level);
        let skipping_name = self.task == Task::SkipName && self.skip_depth.is_none();
        match operation {
            Operation::NextString => self.task == Task::Text,
            Operation::NextNumber => match self.task {
                Task::Number(_) => true,
                _ => false,
            },
            Operation::NextName => self.task == Task::Name,
            Operation::SkipName => skipping_name,
            Operation::SkipValue => skipping,
            Operation::SkipToTopLevel => skipping || skipping_name,
            _ => false,
        }
    }

    /// Tells why an operation must not be called; `None` if it may be called.
    pub fn check_usage(&self, operation: Operation) -> (r: Option<Misuse>)
        requires
            self.wf(),
        ensures
            r == usage::misuse_of(self@, operation),
            r is None <==> self.usable(operation),
    {
        if self.check_unfinished(operation) {
            return None;
        }
        if self.task != Task::Idle || self.skip_depth.is_some() {
            return Some(Misuse::OtherOperationUnfinished);
        }
        match operation {
            Operation::Peek => if self.expects_member_name {
                Some(Misuse::PeekAtMemberName)
            } else {
                self.check_look_ahead()
            },
            Operation::SkipValue => if self.expects_member_name {
                Some(Misuse::SkipAtMemberName)
            } else {
                self.check_look_ahead()
            },
            Operation::EndArray => if !self.is_in_array() {
                Some(Misuse::EndArrayOutsideArray)
            } else {
                self.check_look_ahead()
            },
            Operation::EndObject => if !self.is_in_object() {
                Some(Misuse::EndObjectOutsideObject)
            } else if self.expects_member_value() {
                Some(Misuse::EndObjectAtMemberValue)
            } else {
                self.check_look_ahead()
            },
            Operation::HasNext => self.check_has_next(),
            Operation::NextName => self.check_name(),
            Operation::SkipName => self.check_name(),
            Operation::SkipToTopLevel => if self.is_string_value_reader_active {
                Some(Misuse::SkipToTopLevelWithStringReader)
            } else {
                None
            },
            Operation::ConsumeTrailingWhitespace => if self.is_string_value_reader_active {
                Some(Misuse::TrailingWithStringReader)
            } else if self.stack.len() > 0 {
                Some(Misuse::TrailingInsideTopLevel)
            } else if self.is_empty {
                Some(Misuse::TrailingBeforeTopLevel)
            } else {
                None
            },
            _ => if self.expects_member_name {
                Some(Misuse::ReadAtMemberName)
            } else {
                self.check_look_ahead()
            },
        }
    }
}

// Debugging
impl<R> JsonStreamReader<R> {
    /// Describes the state of the reader.
    pub fn describe(&self) -> (r: ReaderDescription)
        requires
            self.wf(),
        ensures
            r.buffer is None <==> self@.eof,
            r.buffer matches Some(buffer) ==> preview::previews(buffer, self@.rest),
            r.peeked == self@.peeked,
            r.is_empty == self@.is_empty,
            r.expects_member_name == self@.expects_member_name,
            r.stack@ == self@.stack,
            r.is_string_value_reader_active == self@.string_reader_active,
            r.place == self@.place,
            types::optional_path_view(r.json_path) == self@.path,
            r.reader_settings == self@.settings,
    {
        let mut stack: Vec<StackValue> = Vec::with_capacity(self.stack.len());
        let mut i: usize = 0;
        while i < self.stack.len()
            invariant
                i <= self.stack@.len(),
                stack@ == self.stack@.take(i as int),
            decreases self.stack@.len() - i,
        {
            stack.push(self.stack[i]);
            i = i + 1;
            assert(stack@ =~= self.stack@.take(i as int));
        }
        ReaderDescription {
            buffer: if self.input.is_eof() {
                None
            } else {
                Some(preview_buffer(self.input.available()))
            },
            peeked: self.peeked,
            is_empty: self.is_empty,
            expects_member_name: self.expects_member_name,
            stack,
            is_string_value_reader_active: self.is_string_value_reader_active,
            place: self.place,
            json_path: self.create_error_location().path,
            reader_settings: self.reader_settings,
        }
    }
}

} // verus!
