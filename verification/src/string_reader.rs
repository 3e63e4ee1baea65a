//! Reading a string piecewise, into buffers of the caller.

use vstd::prelude::*;

use crate::chars::EncodedChar;
use crate::model;
use crate::model::{Outcome, State};
use crate::reader::{resolves, JsonStreamReader};
use crate::resume;
use crate::text;
use crate::types::{ErrorModel, ReaderError, Step};

verus! {

/// At least one byte of a character goes to the buffer of the caller.
pub const STRING_VALUE_READER_BUF_SIZE: usize = 3;

/// Reads the content of a string which the JSON reader has started to read.
#[derive(Debug)]
pub struct StringValueReader {
    /// Remaining bytes of a character for which the buffer of the caller was not large enough.
    utf8_buf: [u8; 3],
    /// Start position within `utf8_buf`.
    utf8_start_pos: usize,
    /// Number of bytes currently in the `utf8_buf`.
    utf8_count: usize,
    /// Number of bytes which an unfinished read has put into the buffer of the caller.
    filled: usize,
    reached_end: bool,
    /// The error which occurred; every subsequent read fails then.
    error: Option<ReaderError>,
}

/// Why a read failed.
#[derive(Debug)]
pub enum StringReadError {
    /// The read encountered an error.
    Failed(ReaderError),
    /// A previous read encountered the error.
    FailedBefore(ReaderError),
}

/// Model of [`StringValueReader`].
pub struct StringReaderModel {
    /// The bytes which have been read but not handed out.
    pub pending: Seq<u8>,
    /// The number of bytes which an unfinished read has put into the buffer of the caller.
    pub filled: nat,
    /// Whether the end of the string has been reached.
    pub reached_end: bool,
    /// The error which occurred.
    pub error: Option<ErrorModel>,
}

impl View for StringValueReader {
    type V = StringReaderModel;

    closed spec fn view(&self) -> StringReaderModel {
        StringReaderModel {
            pending: self.utf8_buf@.subrange(
                self.utf8_start_pos as int,
                self.utf8_start_pos + self.utf8_count,
            ),
            filled: self.filled as nat,
            reached_end: self.reached_end,
            error: match self.error {
                Some(e) => Some(e@),
                None => None,
            },
        }
    }
}

/// Whether two states of a read, each given by the state of the JSON reader and the bytes
/// which are there already, lead to the same outcome whatever input arrives.
pub open spec fn pieces_continue(
    a: State,
    produced_a: Seq<u8>,
    b: State,
    produced_b: Seq<u8>,
    want: nat,
) -> bool {
    forall|more: Seq<u8>, eof: bool|
        model::pieces_run(#[trigger] model::extend(a, more, eof), produced_a, want)
            == model::pieces_run(model::extend(b, more, eof), produced_b, want)
}

/// The bytes which are there already when a read into a buffer is started or continued.
pub open spec fn produced_bytes(string_reader: StringReaderModel, buf: Seq<u8>) -> Seq<u8> {
    buf.take(string_reader.filled as int) + string_reader.pending
}

/// Whether the result of a read is the one which the model determines. Bytes are handed out in
/// the order of the string, and none is lost.
pub open spec fn read_resolves(
    before: StringReaderModel,
    json_before: State,
    buf_before: Seq<u8>,
    after: StringReaderModel,
    json_after: State,
    buf_after: Seq<u8>,
    r: Result<Step<usize>, ReaderError>,
) -> bool {
    let want = buf_before.len();
    let produced = produced_bytes(before, buf_before);
    let outcome = model::pieces_run(json_before, produced, want);
    match r {
        Ok(Step::Ready(count)) => {
            &&& outcome matches Outcome::Ready((bytes, reached_end), s)
            &&& s == json_after
            &&& model::received(json_after) == model::received(json_before)
            &&& count == if bytes.len() < want {
                bytes.len()
            } else {
                want
            }
            &&& buf_after.take(count as int) == bytes.take(count as int)
            &&& buf_after.skip(count as int) == buf_before.skip(count as int)
            &&& after.pending == bytes.skip(count as int)
            &&& after.filled == 0
            &&& after.reached_end == reached_end
        },
        Ok(Step::NeedInput) => {
            &&& outcome == Outcome::<(Seq<u8>, bool)>::NeedMore(json_after)
            &&& produced_bytes(after, buf_after) == model::pieces_waiting(
                json_before,
                produced,
                want,
            )
            &&& pieces_continue(
                json_before,
                produced,
                json_after,
                produced_bytes(after, buf_after),
                want,
            )
            &&& model::undecided(json_after)
            &&& model::received(json_after) == model::received(json_before)
            &&& !after.reached_end
            &&& buf_after.skip(after.filled as int) == buf_before.skip(after.filled as int)
        },
        Err(e) => outcome == Outcome::<(Seq<u8>, bool)>::Failed(e@, json_after),
    }
}

/// Buffers which agree behind an index agree behind every larger one.
proof fn lemma_same_tail(a: Seq<u8>, b: Seq<u8>, start: int, later: int)
    requires
        0 <= start <= later <= a.len(),
        a.len() == b.len(),
        a.skip(start) == b.skip(start),
    ensures
        a.skip(later) == b.skip(later),
{
    assert(a.skip(later) =~= a.skip(start).skip(later - start));
    assert(b.skip(later) =~= b.skip(start).skip(later - start));
}

impl StringValueReader {
    pub closed spec fn wf(&self) -> bool {
        &&& self.utf8_start_pos + self.utf8_count <= STRING_VALUE_READER_BUF_SIZE
        &&& self.reached_end ==> self.utf8_count == 0
    }

    /// At most the remainder of one character is pending, and nothing at the end of the string.
    pub proof fn law_invariant(&self)
        ensures
            self.wf() ==> self@.pending.len() <= STRING_VALUE_READER_BUF_SIZE,
            self.wf() && self@.reached_end ==> self@.pending.len() == 0,
    {
    }

    /// Whether a read into a buffer with the given content may be started or continued. Behind
    /// an unfinished read, its buffer has to be used again.
    pub open spec fn can_read<R>(&self, json_reader: JsonStreamReader<R>, buf: Seq<u8>) -> bool {
        &&& self.wf()
        &&& json_reader.wf()
        &&& self@.reached_end || self@.error is Some || json_reader@.string_reader_active
        &&& self@.filled <= buf.len()
    }

    /// Moves remaining bytes of a character to the buffer of the caller.
    fn serve_pending(&mut self, buf: &mut [u8])
        requires
            old(self).wf(),
            !old(self).reached_end,
            old(self).filled <= old(buf)@.len(),
        ensures
            final(self).wf(),
            final(buf)@.len() == old(buf)@.len(),
            old(self).filled <= final(self).filled <= final(buf)@.len(),
            final(buf)@.skip(final(self).filled as int) == old(buf)@.skip(
                final(self).filled as int,
            ),
            !final(self).reached_end,
            final(self).error == old(self).error,
            final(buf)@.take(final(self).filled as int) + final(self)@.pending == old(buf)@.take(
                old(self).filled as int,
            ) + old(self)@.pending,
            final(self).filled < final(buf)@.len() ==> final(self)@.pending.len() == 0
                && final(self).utf8_start_pos == 0
                && final(self).utf8_count == 0,
    {
        let ghost all = old(buf)@.take(old(self).filled as int) + old(self)@.pending;
        while self.utf8_count > 0 && self.filled < buf.len()
            invariant
                self.utf8_start_pos + self.utf8_count <= STRING_VALUE_READER_BUF_SIZE,
                !self.reached_end,
                self.error == old(self).error,
                buf@.len() == old(buf)@.len(),
                old(self).filled <= self.filled <= buf@.len(),
                buf@.skip(self.filled as int) == old(buf)@.skip(self.filled as int),
                buf@.take(self.filled as int) + self@.pending == all,
            decreases self.utf8_count,
        {
            let ghost before = *self;
            let ghost before_buf = buf@;
            buf[self.filled] = self.utf8_buf[self.utf8_start_pos];
            self.filled = self.filled + 1;
            self.utf8_start_pos = self.utf8_start_pos + 1;
            self.utf8_count = self.utf8_count - 1;
            assert(buf@.take(self.filled as int) + self@.pending =~= before_buf.take(
                before.filled as int,
            ) + before@.pending);
            proof {
                lemma_same_tail(
                    before_buf,
                    old(buf)@,
                    before.filled as int,
                    self.filled as int,
                );
            }
            assert(buf@.skip(self.filled as int) =~= before_buf.skip(self.filled as int));
        }
        if self.utf8_count == 0 {
            self.utf8_start_pos = 0;
            assert(self@.pending =~= Seq::<u8>::empty());
        }
    }

    /// Puts a character into the buffer of the caller. What does not fit there is kept for the
    /// next read.
    fn store_char(&mut self, c: EncodedChar, buf: &mut [u8])
        requires
            c.wf(),
            old(self).wf(),
            !old(self).reached_end,
            old(self).filled < old(buf)@.len(),
            old(self).utf8_start_pos == 0,
            old(self).utf8_count == 0,
        ensures
            final(self).wf(),
            final(buf)@.len() == old(buf)@.len(),
            old(self).filled <= final(self).filled <= final(buf)@.len(),
            final(buf)@.skip(final(self).filled as int) == old(buf)@.skip(
                final(self).filled as int,
            ),
            !final(self).reached_end,
            final(self).error == old(self).error,
            final(buf)@.take(final(self).filled as int) + final(self)@.pending == old(buf)@.take(
                old(self).filled as int,
            ) + c@,
            final(self).filled < final(buf)@.len() ==> final(self)@.pending.len() == 0
                && final(self).utf8_start_pos == 0 && final(self).utf8_count == 0,
    {
        buf[self.filled] = c.bytes[0];
        // At least one byte is written to `buf`, so at most 3 additional bytes have to be stored
        // in `utf8_buf`
        let mut i: usize = 1;
        while i < c.len
            invariant
                1 <= i <= c.len,
                c.wf(),
                self.utf8_buf@.len() == STRING_VALUE_READER_BUF_SIZE,
                *self == (StringValueReader { utf8_buf: self.utf8_buf, ..*old(self) }),
                forall|j: int| 0 <= j < i - 1 ==> #[trigger] self.utf8_buf@[j] == c.bytes@[j + 1],
            decreases c.len - i,
        {
            self.utf8_buf[i - 1] = c.bytes[i];
            i = i + 1;
        }
        self.utf8_count = c.len - 1;
        self.filled = self.filled + 1;
        assert(buf@.take(self.filled as int) + self@.pending =~= old(buf)@.take(
            old(self).filled as int,
        ) + c@);
        let ghost stored_buf = buf@;
        self.serve_pending(buf);
        assert(stored_buf.skip(self.filled as int) =~= old(buf)@.skip(self.filled as int));
    }

    /// Reads until the buffer is full or the end of the string is reached.
    #[verifier::spinoff_prover]
    #[verifier::rlimit(40)]
    fn read_impl<R>(&mut self, json_reader: &mut JsonStreamReader<R>, buf: &mut [u8]) -> (r: Result<
        Step<usize>,
        ReaderError,
    >)
        requires
            old(self).can_read(*old(json_reader), old(buf)@),
            old(self)@.error is None,
            !old(self)@.reached_end,
            old(buf)@.len() > 0,
        ensures
            final(json_reader).wf(),
            final(json_reader).source() == old(json_reader).source(),
            final(buf)@.len() == old(buf)@.len(),
            final(self).wf(),
            read_resolves(
                old(self)@,
                old(json_reader)@,
                old(buf)@,
                final(self)@,
                final(json_reader)@,
                final(buf)@,
                r,
            ),
            r is Ok ==> final(self).can_read(*final(json_reader), final(buf)@),
            final(self)@.error is None,
    {
        let ghost start = json_reader@;
        let ghost produced = produced_bytes(self@, buf@);
        let ghost want = buf@.len();
        // Check if there are remaining bytes in the UTF-8 buffer which should be served first
        self.serve_pending(buf);
        while self.filled < buf.len()
            invariant
                start == old(json_reader)@,
                produced == produced_bytes(old(self)@, old(buf)@),
                want == old(buf)@.len(),
                buf@.len() == want,
                self.wf(),
                !self.reached_end,
                self.error is None,
                self.filled <= buf@.len(),
                buf@.skip(self.filled as int) == old(buf)@.skip(self.filled as int),
                self.filled < buf@.len() ==> self@.pending.len() == 0 && self.utf8_start_pos == 0
                    && self.utf8_count == 0,
                json_reader.wf(),
                json_reader.source() == old(json_reader).source(),
                json_reader@.string_reader_active,
                model::received(json_reader@) == model::received(start),
                model::pieces_run(start, produced, want) == model::pieces_run(
                    json_reader@,
                    produced_bytes(self@, buf@),
                    want,
                ),
                pieces_continue(start, produced, json_reader@, produced_bytes(self@, buf@), want),
                model::pieces_waiting(start, produced, want) == model::pieces_waiting(
                    json_reader@,
                    produced_bytes(self@, buf@),
                    want,
                ),
            decreases json_reader@.rest.len(),
        {
            let ghost before = json_reader@;
            let ghost before_produced = produced_bytes(self@, buf@);
            let ghost before_filled = self.filled as int;
            let ghost before_buf = buf@;
            assert(before_produced =~= buf@.take(self.filled as int));
            proof {
                text::lemma_text_unit(before.rest, before.eof);
            }
            match json_reader.read_string_bytes() {
                Err(e) => {
                    return Err(e);
                },
                Ok(Step::NeedInput) => {
                    return Ok(Step::NeedInput);
                },
                Ok(Step::Ready(None)) => {
                    let count: usize = self.filled;
                    self.reached_end = true;
                    self.filled = 0;
                    proof {
                        assert(before_produced.take(count as int) =~= before_produced);
                        assert(before_produced.skip(count as int) =~= self@.pending);
                    }
                    return Ok(Step::Ready(count));
                },
                Ok(Step::Ready(Some(c))) => {
                    self.store_char(c, buf);
                    proof {
                        lemma_same_tail(before_buf, old(buf)@, before_filled, self.filled as int);
                        assert(produced_bytes(self@, buf@) =~= before_produced + c@);
                        assert forall|more: Seq<u8>, eof: bool|
                            model::pieces_run(#[trigger] model::extend(start, more, eof), produced, want)
                                == model::pieces_run(
                                model::extend(json_reader@, more, eof),
                                produced_bytes(self@, buf@),
                                want,
                            ) by {
                            resume::law_piece(before, more, eof);
                        }
                    }
                },
            }
        }
        let count: usize = self.filled;
        proof {
            let all = produced_bytes(self@, buf@);
            assert(all.take(count as int) =~= buf@.take(count as int));
            assert(all.skip(count as int) =~= self@.pending);
        }
        self.filled = 0;
        Ok(Step::Ready(count))
    }

    /// Reads the next bytes of the string into the buffer of the caller. The result tells how
    /// many bytes were read; it is 0 at the end of the string. Once a read has failed, all
    /// subsequent reads fail too.
    ///
    /// Behind [`Step::NeedInput`] the same buffer has to be used again.
    pub fn read<R>(&mut self, json_reader: &mut JsonStreamReader<R>, buf: &mut [u8]) -> (r: Result<
        Step<usize>,
        StringReadError,
    >)
        requires
            old(self).can_read(*old(json_reader), old(buf)@),
        ensures
            final(json_reader).wf(),
            final(json_reader).source() == old(json_reader).source(),
            final(buf)@.len() == old(buf)@.len(),
            final(self).wf(),
            old(self)@.error is Some ==> {
                &&& r matches Err(StringReadError::FailedBefore(e)) && old(self)@.error == Some(e@)
                &&& final(self)@ == old(self)@
                &&& final(json_reader)@ == old(json_reader)@
                &&& final(buf)@ == old(buf)@
            },
            old(self)@.error is None && (old(self)@.reached_end || old(buf)@.len() == 0) ==> {
                &&& r == Ok::<Step<usize>, StringReadError>(Step::Ready(0))
                &&& final(self)@ == old(self)@
                &&& final(json_reader)@ == old(json_reader)@
                &&& final(buf)@ == old(buf)@
            },
            old(self)@.error is None && !old(self)@.reached_end && old(buf)@.len() > 0 ==> {
                &&& !(r matches Err(StringReadError::FailedBefore(_)))
                &&& read_resolves(
                    old(self)@,
                    old(json_reader)@,
                    old(buf)@,
                    final(self)@,
                    final(json_reader)@,
                    final(buf)@,
                    match r {
                        Ok(step) => Ok(step),
                        Err(StringReadError::Failed(e)) => Err(e),
                        Err(StringReadError::FailedBefore(e)) => Err(e),
                    },
                )
                &&& final(self)@.error == match r {
                    Err(StringReadError::Failed(e)) => Some(e@),
                    _ => None,
                }
                &&& r is Err ==> final(self)@.filled == 0
            },
            final(self).can_read(*final(json_reader), final(buf)@),
    {
        if let Some(e) = &self.error {
            return Err(StringReadError::FailedBefore(e.duplicate()));
        }
        if self.reached_end || buf.len() == 0 {
            return Ok(Step::Ready(0));
        }
        match self.read_impl(json_reader, buf) {
            Ok(step) => Ok(step),
            Err(e) => {
                self.filled = 0;
                self.error = Some(e.duplicate());
                Err(StringReadError::Failed(e))
            },
        }
    }

    /// Gives up an unfinished read. The bytes which it has put into the buffer of the caller are
    /// not read again.
    pub fn abandon_read(&mut self)
        requires
            old(self).wf(),
        ensures
            final(self).wf(),
            final(self)@ == (StringReaderModel { filled: 0, ..old(self)@ }),
    {
        self.filled = 0;
    }

    /// Notes an error of the source which prevented a read from being continued.
    pub fn record_error(&mut self, e: &ReaderError)
        requires
            old(self).wf(),
        ensures
            final(self).wf(),
            final(self)@ == (StringReaderModel { error: Some(e@), filled: 0, ..old(self)@ }),
    {
        self.filled = 0;
        self.error = Some(e.duplicate());
    }
}

/// The message of a read which fails because a previous read failed, with an error of the given
/// kind and message.
pub fn previous_error_message(kind: &str, message: &str) -> (r: String)
    ensures
        r@ == "previous error '"@ + kind@ + "': "@ + message@,
{
    let mut r: String = "previous error '".to_owned();
    r.append(kind);
    r.append("': ");
    r.append(message);
    r
}

impl<R> JsonStreamReader<R> {
    /// Starts to read a string piecewise.
    pub fn next_string_reader(&mut self) -> (r: Result<Step<StringValueReader>, ReaderError>)
        requires
            old(self).can_read_value(),
        ensures
            final(self).wf(),
            final(self).source() == old(self).source(),
            resolves(
                |s: State| model::string_reader_run(s),
                old(self)@,
                final(self)@,
                match r {
                    Ok(Step::Ready(_)) => Ok(Step::Ready(())),
                    Ok(Step::NeedInput) => Ok(Step::NeedInput),
                    Err(e) => Err(e),
                },
            ),
            r matches Ok(Step::NeedInput) ==> final(self).can_read_value(),
            r matches Ok(Step::Ready(string_reader)) ==> {
                &&& string_reader.wf()
                &&& string_reader@ == (StringReaderModel {
                    pending: Seq::empty(),
                    filled: 0,
                    reached_end: false,
                    error: None,
                })
                &&& string_reader.can_read(*final(self), Seq::empty())
            },
    {
        match self.start_string_reader() {
            Err(e) => Err(e),
            Ok(Step::NeedInput) => Ok(Step::NeedInput),
            Ok(Step::Ready(_)) => {
                let string_reader = StringValueReader {
                    utf8_buf: [0, 0, 0],
                    utf8_start_pos: 0,
                    utf8_count: 0,
                    filled: 0,
                    reached_end: false,
                    error: None,
                };
                assert(string_reader@.pending =~= Seq::<u8>::empty());
                Ok(Step::Ready(string_reader))
            },
        }
    }
}

} // verus!
