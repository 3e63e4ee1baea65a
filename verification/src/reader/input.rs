//! Supplying input, and reaching the end of it.

use vstd::prelude::*;

use crate::buffer::READER_BUF_SIZE;
use crate::model::{self, PeekPhase, State, Task};
use crate::reader::{self, JsonStreamReader};
use crate::space::{read_space_unit, CommentMode, SpaceUnit};
use crate::text;
use crate::types::{
    self, ErrorKind, FillStep, IoError, PeekedValue, Place, ReaderError, Step, SyntaxErrorKind,
};

verus! {

impl<R> JsonStreamReader<R> {
    /// How many bytes of input can be supplied: as many as the buffer has room for, and as
    /// positions can express.
    pub open spec fn fill_limit(&self) -> int {
        let countable = u64::MAX - model::received(self@);
        if self.free_space() <= countable {
            self.free_space()
        } else {
            countable
        }
    }

    /// Prepares the reader for more input. The result tells how many bytes can be supplied at
    /// most. It is not 0 when an operation needs input, unless the number of bytes of the
    /// document exceeds what positions can express.
    pub fn prepare_fill(&mut self) -> (r: usize)
        requires
            old(self).wf(),
        ensures
            final(self).wf(),
            final(self).source() == old(self).source(),
            final(self)@ == old(self)@,
            r == final(self).fill_limit(),
            // Starts at the beginning of the buffer if can or has to
            final(self).free_space() == if old(self).free_space() == 0 || (old(
                self,
            )@.rest.len() == 0 && !old(self).collects_in_place()) {
                READER_BUF_SIZE - old(self)@.rest.len()
            } else {
                old(self).free_space()
            },
            r <= READER_BUF_SIZE,
            r > 0 || old(self)@.rest.len() >= text::LONGEST_UNIT || model::received(old(self)@)
                == u64::MAX,
    {
        let space: usize = self.input.prepare_fill();
        let peeked_length: u64 = match self.peeked {
            None => 0,
            Some(PeekedValue::NumberStart) => 0,
            Some(PeekedValue::Null) => 4,
            Some(PeekedValue::BooleanTrue) => 4,
            Some(PeekedValue::BooleanFalse) => 5,
            Some(_) => 1,
        };
        let number_length: u64 = match self.task {
            Task::Number(scan) => scan.len,
            Task::SkipNumber(scan) => scan.len,
            _ => 0,
        };
        let countable: u64 = u64::MAX - self.place.byte_pos - peeked_length - number_length
            - self.input.available().len() as u64;
        if space as u64 <= countable {
            space
        } else {
            countable as usize
        }
    }

    /// Gives up the operation which needs input.
    fn give_up(&mut self)
        requires
            old(self).wf(),
            !old(self)@.eof,
        ensures
            final(self).wf(),
            final(self).source() == old(self).source(),
            final(self)@ == model::source_failed(old(self)@),
    {
        let available = self.input.available();
        let count: usize = available.len();
        if !self.is_string_value_reader_active && self.task == Task::Idle && count == 1 {
            let byte: u8 = available[0];
            match read_space_unit(
                self.comment,
                self.reader_settings.allow_comments,
                available,
                self.input.is_eof(),
            ) {
                SpaceUnit::Incomplete => {
                    if byte == 0x0D {
                        self.place = Place {
                            line: self.place.line + 1,
                            column: 0,
                            byte_pos: self.place.byte_pos + 1,
                        };
                    } else if byte < 0x80 {
                        self.advance(1, 1);
                    }
                },
                _ => {},
            }
        }
        self.input.abandon_value();
        self.input.consume(count);
        self.comment = CommentMode::Outside;
        self.phase = PeekPhase::Start;
        self.task = Task::Idle;
        self.skip_depth = None;
        assert(self@ =~= model::source_failed(old(self)@));
    }

    /// Supplies the reader with what its source gave: bytes, where an empty slice stands for
    /// the end of the input, or an error.
    ///
    /// An error makes the operation fail which needs the input. What has been received for it
    /// is gone, and whatever is done next starts behind it.
    pub fn fill_buffer(&mut self, received: Result<&[u8], ErrorKind>) -> (r: Result<
        FillStep,
        ReaderError,
    >)
        requires
            old(self).wf(),
            received matches Ok(bytes) ==> bytes@.len() <= old(self).fill_limit(),
        ensures
            final(self).wf(),
            final(self).source() == old(self).source(),
            old(self)@.eof ==> r == Ok::<FillStep, ReaderError>(FillStep::EndOfInput) && final(self)@
                == old(self)@,
            !old(self)@.eof ==> match received {
                Ok(bytes) => {
                    &&& final(self)@ == model::extend(old(self)@, bytes@, bytes@.len() == 0)
                    &&& r == Ok::<FillStep, ReaderError>(
                        if bytes@.len() == 0 {
                            FillStep::EndOfInput
                        } else {
                            FillStep::Filled
                        },
                    )
                },
                Err(ErrorKind::Interrupted) => r == Ok::<FillStep, ReaderError>(FillStep::Retry)
                    && final(self)@ == old(self)@,
                Err(kind) => {
                    &&& final(self)@ == model::source_failed(old(self)@)
                    &&& r is Err
                    &&& r->Err_0@ == (types::ErrorModel::Io {
                        kind,
                        message: Seq::empty(),
                        location: final(self)@.position(),
                    })
                },
            },
    {
        if self.input.is_eof() {
            return Ok(FillStep::EndOfInput);
        }
        match received {
            Ok(bytes) => {
                if bytes.len() == 0 {
                    self.input.set_eof();
                    assert(self@ =~= model::extend(old(self)@, bytes@, true));
                    Ok(FillStep::EndOfInput)
                } else {
                    self.input.add_input(bytes);
                    assert(self@ =~= model::extend(old(self)@, bytes@, false));
                    Ok(FillStep::Filled)
                }
            },
            // Retry if interrupted
            Err(ErrorKind::Interrupted) => Ok(FillStep::Retry),
            Err(kind) => {
                self.give_up();
                Err(
                    ReaderError::IoError {
                        error: IoError { kind, message: String::new() },
                        location: self.create_error_location(),
                    },
                )
            },
        }
    }

    /// Whether trailing whitespace may be consumed.
    pub open spec fn can_consume_trailing(&self) -> bool {
        &&& self.wf()
        &&& self@.task == Task::Idle
        &&& self@.skip_depth is None
        &&& !self@.string_reader_active
        &&& self@.behind_top_level()
    }

    /// Reads up to the end of the input, where only whitespace and comments may follow.
    pub fn consume_trailing_whitespace(&mut self) -> (r: Result<Step<()>, ReaderError>)
        requires
            old(self).can_consume_trailing(),
        ensures
            final(self).wf(),
            final(self).source() == old(self).source(),
            reader::resolves(|s: State| model::trailing_run(s), old(self)@, final(self)@, r),
            r matches Ok(Step::NeedInput) ==> final(self).can_consume_trailing(),
    {
        match self.skip_whitespace() {
            Err(e) => Err(e),
            Ok(Step::NeedInput) => Ok(Step::NeedInput),
            Ok(Step::Ready(None)) => Ok(Step::Ready(())),
            Ok(Step::Ready(Some(_))) => Err(
                self.create_syntax_value_error(SyntaxErrorKind::TrailingData),
            ),
        }
    }
}

} // verus!
