//! The buffer for input which has been received, and for the value which is being read.
//!
//! A value (the content of a string, or the characters of a number) is left in the input
//! buffer as long as it is a contiguous part of it. Otherwise it is collected in a separate
//! buffer.

use vstd::prelude::*;
use vstd::slice::slice_subrange;
use vstd::utf8::*;

verus! {

/// Number of bytes which the input buffer can hold.
pub const READER_BUF_SIZE: usize = 1024;

/// Initial capacity of the separate buffer for values.
pub const INITIAL_VALUE_BYTES_BUF_CAPACITY: usize = 128;

/// Converts UTF-8 bytes to a `str`.
///
/// Calls `core::str::from_utf8`. The contract claims that for valid UTF-8 it succeeds, and
/// that the result consists of the characters which the bytes encode.
#[verifier::external_body]
pub(crate) fn to_str(bytes: &[u8]) -> (r: &str)
    requires
        valid_utf8(bytes@),
    ensures
        r@ == decode_utf8(bytes@),
{
    core::str::from_utf8(bytes).unwrap()
}

/// Converts UTF-8 bytes to a `String`.
///
/// Calls `String::from_utf8`. The contract claims that for valid UTF-8 it succeeds, and that
/// the result consists of the characters which the bytes encode.
#[verifier::external_body]
fn to_string(bytes: Vec<u8>) -> (r: String)
    requires
        valid_utf8(bytes@),
    ensures
        r@ == decode_utf8(bytes@),
{
    String::from_utf8(bytes).unwrap()
}

/// Appends bytes to a vector.
pub(crate) fn append_bytes(target: &mut Vec<u8>, bytes: &[u8])
    ensures
        final(target)@ == old(target)@ + bytes@,
{
    target.extend_from_slice(bytes);
    assert(target@ =~= old(target)@ + bytes@);
}

/// Where the bytes of a value are.
#[derive(Debug)]
pub enum BytesRefProvider {
    /// In the input buffer, from `start` (inclusive) to `end` (exclusive).
    ReaderBuf { start: usize, end: usize },
    /// In the separate buffer for values.
    BytesValueBuf,
}

/// A value which has been read: either held by the buffer, or owned.
#[derive(Debug)]
pub enum BytesValue {
    BytesRef(BytesRefProvider),
    Vec(Vec<u8>),
}

/// Input which has been received but not processed, and the value which is being read.
#[derive(Debug)]
pub struct InputBuffer {
    buf: Vec<u8>,
    /// Index (inclusive) at which the unprocessed data in `buf` starts.
    buf_pos: usize,
    /// Index (exclusive) up to which `buf` is filled.
    buf_end_pos: usize,
    /// Whether `buf` is used by a [`BytesRefProvider::ReaderBuf`].
    buf_used_for_bytes_value: bool,
    reached_eof: bool,
    /// Stores values which cannot be served directly from `buf`.
    value_bytes_buf: Vec<u8>,
    /// Whether a value is being read.
    is_collecting: bool,
    /// Whether the start of the value is in `value_bytes_buf`; its remainder is in `buf`
    /// from `buf_value_start` (inclusive) to `buf_pos` (exclusive).
    is_using_bytes_buf: bool,
    buf_value_start: usize,
    /// Whether the last byte in front of `buf_pos` is not part of the value.
    skip_final_byte: bool,
}

impl InputBuffer {
    /// The input which has been received but not processed.
    pub closed spec fn unread(&self) -> Seq<u8> {
        self.buf@.subrange(self.buf_pos as int, self.buf_end_pos as int)
    }

    /// Whether the end of the input has been reached.
    pub closed spec fn eof(&self) -> bool {
        self.reached_eof
    }

    /// Whether a value is being read.
    pub closed spec fn collecting(&self) -> bool {
        self.is_collecting
    }

    /// Index (exclusive) up to which the value is in `buf`.
    spec fn value_end(&self) -> int {
        if self.skip_final_byte {
            self.buf_pos - 1
        } else {
            self.buf_pos as int
        }
    }

    /// The value which is being read, as far as it has been read.
    pub closed spec fn value(&self) -> Seq<u8> {
        if self.is_collecting {
            self.value_bytes_buf@ + self.buf@.subrange(
                self.buf_value_start as int,
                self.value_end(),
            )
        } else {
            Seq::empty()
        }
    }

    /// Whether the buffer holds a value which has been read but not handed out.
    pub closed spec fn holds_value(&self) -> bool {
        self.buf_used_for_bytes_value
    }

    /// Whether the start of the value has been moved to the separate buffer for values.
    pub closed spec fn separate(&self) -> bool {
        self.is_using_bytes_buf
    }

    /// Whether the byte behind the value has been consumed.
    pub closed spec fn value_ended(&self) -> bool {
        self.skip_final_byte
    }

    /// How many bytes can be added without moving data.
    pub closed spec fn space(&self) -> int {
        READER_BUF_SIZE - self.buf_end_pos
    }

    pub closed spec fn wf(&self) -> bool {
        &&& self.buf@.len() == READER_BUF_SIZE
        &&& self.buf_pos <= self.buf_end_pos <= READER_BUF_SIZE
        &&& self.is_collecting ==> {
            &&& self.buf_value_start <= self.value_end()
            &&& !self.buf_used_for_bytes_value
            &&& !self.is_using_bytes_buf ==> self.value_bytes_buf@.len() == 0
        }
    }

    /// The free part of the buffer is behind the input which has not been processed.
    pub proof fn law_invariant(&self)
        ensures
            self.wf() ==> 0 <= self.space() <= READER_BUF_SIZE - self.unread().len(),
    {
    }

    /// Whether the value can be obtained from this buffer.
    pub closed spec fn provides(&self, value: BytesValue) -> bool {
        match value {
            BytesValue::BytesRef(BytesRefProvider::ReaderBuf { start, end }) => start <= end
                <= READER_BUF_SIZE,
            _ => true,
        }
    }

    /// The bytes of a value.
    pub closed spec fn bytes_of(&self, value: BytesValue) -> Seq<u8> {
        match value {
            BytesValue::BytesRef(BytesRefProvider::ReaderBuf { start, end }) => self.buf@.subrange(
                start as int,
                end as int,
            ),
            BytesValue::BytesRef(BytesRefProvider::BytesValueBuf) => self.value_bytes_buf@,
            BytesValue::Vec(bytes) => bytes@,
        }
    }

    /// Whether the unprocessed input is the same as in another buffer.
    pub open spec fn same_input(&self, other: &InputBuffer) -> bool {
        self.unread() == other.unread() && self.eof() == other.eof()
    }

    /// Creates an empty buffer.
    pub fn new() -> (r: Self)
        ensures
            r.wf(),
            r.unread() == Seq::<u8>::empty(),
            !r.eof(),
            !r.collecting(),
            r.value() == Seq::<u8>::empty(),
            !r.holds_value(),
    {
        let r = InputBuffer {
            buf: vec![0u8; READER_BUF_SIZE],
            buf_pos: 0,
            buf_end_pos: 0,
            buf_used_for_bytes_value: false,
            reached_eof: false,
            value_bytes_buf: Vec::with_capacity(INITIAL_VALUE_BYTES_BUF_CAPACITY),
            is_collecting: false,
            is_using_bytes_buf: false,
            buf_value_start: 0,
            skip_final_byte: false,
        };
        assert(r.unread() =~= Seq::<u8>::empty());
        r
    }

    /// The input which has been received but not processed.
    pub fn available(&self) -> (r: &[u8])
        requires
            self.wf(),
        ensures
            r@ == self.unread(),
            r@.len() <= READER_BUF_SIZE,
    {
        slice_subrange(self.buf.as_slice(), self.buf_pos, self.buf_end_pos)
    }

    /// Whether the end of the input has been reached.
    pub fn is_eof(&self) -> (r: bool)
        ensures
            r == self.eof(),
    {
        self.reached_eof
    }

    /// Moves the unprocessed input to the start of the buffer.
    fn move_to_start(&mut self)
        requires
            old(self).wf(),
            !old(self).is_collecting || (old(self).buf_value_start == old(self).buf_pos && !old(
                self,
            ).skip_final_byte),
            !old(self).buf_used_for_bytes_value,
        ensures
            final(self).wf(),
            final(self).same_input(old(self)),
            final(self).collecting() == old(self).collecting(),
            final(self).value() == old(self).value(),
            !final(self).holds_value(),
            final(self).buf_pos == 0,
            final(self).buf_value_start == 0,
            final(self).value_bytes_buf@ == old(self).value_bytes_buf@,
            final(self).separate() == old(self).separate(),
            final(self).value_ended() == old(self).value_ended(),
            final(self).space() == READER_BUF_SIZE - final(self).unread().len(),
    {
        let start: usize = self.buf_pos;
        let count: usize = self.buf_end_pos - start;
        if start > 0 {
            let mut i: usize = 0;
            while i < count
                invariant
                    start == old(self).buf_pos,
                    start > 0,
                    count == old(self).buf_end_pos - start,
                    i <= count,
                    start + count <= READER_BUF_SIZE,
                    self.buf@.len() == READER_BUF_SIZE,
                    old(self).buf@.len() == READER_BUF_SIZE,
                    forall|j: int| 0 <= j < i ==> self.buf@[j] == #[trigger] old(self).buf@[start + j],
                    forall|j: int|
                        start + i <= j < start + count ==> self.buf@[j] == #[trigger] old(
                            self,
                        ).buf@[j],
                    *self == (InputBuffer { buf: self.buf, ..*old(self) }),
                decreases count - i,
            {
                let byte: u8 = self.buf[start + i];
                assert(byte == old(self).buf@[start + i]);
                self.buf[i] = byte;
                i = i + 1;
            }
        }
        self.buf_pos = 0;
        self.buf_end_pos = count;
        self.buf_value_start = 0;
        assert(self.unread() =~= old(self).unread()) by {
            assert forall|j: int| 0 <= j < count implies self.unread()[j] == old(self).unread()[j] by {
                assert(old(self).unread()[j] == old(self).buf@[start + j]);
            }
        }
        assert(self.value() =~= old(self).value());
    }

    /// Starts to read a value. The complete buffer size becomes available for it.
    pub fn begin_value(&mut self)
        requires
            old(self).wf(),
            !old(self).collecting(),
            !old(self).holds_value(),
        ensures
            final(self).wf(),
            final(self).same_input(old(self)),
            final(self).collecting(),
            final(self).value() == Seq::<u8>::empty(),
            !final(self).separate(),
            !final(self).value_ended(),
            !final(self).holds_value(),
            final(self).space() == READER_BUF_SIZE - final(self).unread().len(),
    {
        self.move_to_start();
        if self.value_bytes_buf.len() > INITIAL_VALUE_BYTES_BUF_CAPACITY * 2 {
            // Don't keep a buffer which got excessively large during the previous usage
            self.value_bytes_buf = Vec::with_capacity(INITIAL_VALUE_BYTES_BUF_CAPACITY);
        } else {
            self.value_bytes_buf.clear();
        }
        self.is_collecting = true;
        self.is_using_bytes_buf = false;
        self.skip_final_byte = false;
        assert(self.value() =~= Seq::<u8>::empty());
    }

    /// Gives up reading a value.
    pub fn abandon_value(&mut self)
        requires
            old(self).wf(),
        ensures
            final(self).wf(),
            final(self).same_input(old(self)),
            !final(self).collecting(),
            final(self).value() == Seq::<u8>::empty(),
            final(self).holds_value() == old(self).holds_value(),
    {
        self.is_collecting = false;
    }

    /// Index (exclusive) up to which the value is in `buf`.
    fn kept_end(&self) -> (r: usize)
        requires
            self.wf(),
            self.is_collecting,
        ensures
            r == self.value_end(),
    {
        if self.skip_final_byte {
            self.buf_pos - 1
        } else {
            self.buf_pos
        }
    }

    /// Saves the part of the value which is in the input buffer to the separate buffer.
    fn save_kept(&mut self)
        requires
            old(self).wf(),
            old(self).is_collecting,
        ensures
            final(self).wf(),
            final(self).same_input(old(self)),
            final(self).collecting(),
            final(self).value() == old(self).value(),
            !final(self).holds_value(),
            final(self).buf_value_start == final(self).buf_pos,
            !final(self).skip_final_byte,
            final(self).separate() <==> old(self).separate() || old(self).value().len() > 0,
            final(self).buf_pos == old(self).buf_pos,
            final(self).buf_end_pos == old(self).buf_end_pos,
    {
        let end: usize = self.kept_end();
        if self.buf_value_start < end {
            let bytes = slice_subrange(self.buf.as_slice(), self.buf_value_start, end);
            append_bytes(&mut self.value_bytes_buf, bytes);
            self.is_using_bytes_buf = true;
        }
        self.buf_value_start = self.buf_pos;
        self.skip_final_byte = false;
        assert(self.value() =~= old(self).value());
    }

    /// Consumes bytes which are not part of a value.
    pub fn consume(&mut self, count: usize)
        requires
            old(self).wf(),
            !old(self).collecting(),
            count <= old(self).unread().len(),
        ensures
            final(self).wf(),
            final(self).unread() == old(self).unread().skip(count as int),
            final(self).eof() == old(self).eof(),
            !final(self).collecting(),
            final(self).value() == Seq::<u8>::empty(),
            final(self).holds_value() == old(self).holds_value(),
    {
        self.buf_pos = self.buf_pos + count;
        assert(self.unread() =~= old(self).unread().skip(count as int));
    }

    /// Consumes bytes which become part of the value.
    pub fn keep(&mut self, count: usize)
        requires
            old(self).wf(),
            old(self).collecting(),
            count <= old(self).unread().len(),
        ensures
            final(self).wf(),
            final(self).unread() == old(self).unread().skip(count as int),
            final(self).eof() == old(self).eof(),
            final(self).collecting(),
            final(self).value() == old(self).value() + old(self).unread().take(count as int),
            !old(self).value_ended() ==> final(self).separate() == old(self).separate(),
            !final(self).value_ended(),
            !final(self).holds_value(),
    {
        if self.skip_final_byte {
            self.save_kept();
        }
        let ghost before = *self;
        self.buf_pos = self.buf_pos + count;
        assert(self.unread() =~= before.unread().skip(count as int));
        assert(self.value() =~= before.value() + before.unread().take(count as int));
    }

    /// Consumes bytes which stand inside the value but are not part of it.
    pub fn skip_bytes(&mut self, count: usize)
        requires
            old(self).wf(),
            old(self).collecting(),
            count <= old(self).unread().len(),
        ensures
            final(self).wf(),
            final(self).unread() == old(self).unread().skip(count as int),
            final(self).eof() == old(self).eof(),
            final(self).collecting(),
            final(self).value() == old(self).value(),
            final(self).separate() <==> old(self).separate() || old(self).value().len() > 0,
            !final(self).value_ended(),
            !final(self).holds_value(),
    {
        // If no bytes have been kept so far, can just increase index; otherwise need to save the
        // previous part of the value
        self.save_kept();
        self.buf_pos = self.buf_pos + count;
        self.buf_value_start = self.buf_pos;
        assert(self.unread() =~= old(self).unread().skip(count as int));
        assert(self.value() =~= old(self).value());
    }

    /// Consumes the byte behind the value, for example the closing `"` of a string. Unlike for
    /// [`skip_bytes`](Self::skip_bytes) the value can stay where it is.
    pub fn skip_final_byte(&mut self)
        requires
            old(self).wf(),
            old(self).collecting(),
            old(self).unread().len() > 0,
        ensures
            final(self).wf(),
            final(self).unread() == old(self).unread().skip(1),
            final(self).eof() == old(self).eof(),
            final(self).collecting(),
            final(self).value() == old(self).value(),
            !old(self).value_ended() ==> final(self).separate() == old(self).separate(),
            final(self).value_ended(),
            !final(self).holds_value(),
    {
        if self.skip_final_byte {
            self.save_kept();
        }
        self.buf_pos = self.buf_pos + 1;
        self.skip_final_byte = true;
        assert(self.unread() =~= old(self).unread().skip(1));
        assert(self.value() =~= old(self).value());
    }

    /// Adds bytes to the value which are not part of the input.
    pub fn push_bytes(&mut self, bytes: &[u8])
        requires
            old(self).wf(),
            old(self).collecting(),
        ensures
            final(self).wf(),
            final(self).same_input(old(self)),
            final(self).collecting(),
            final(self).value() == old(self).value() + bytes@,
            final(self).separate(),
            !final(self).value_ended(),
            !final(self).holds_value(),
    {
        self.save_kept();
        self.is_using_bytes_buf = true;
        append_bytes(&mut self.value_bytes_buf, bytes);
        assert(self.value() =~= old(self).value() + bytes@);
    }

    /// Finishes reading a value. With `requires_borrowed` the result can be obtained as `str`.
    pub fn get_bytes(&mut self, requires_borrowed: bool) -> (r: BytesValue)
        requires
            old(self).wf(),
            old(self).collecting(),
        ensures
            final(self).wf(),
            final(self).same_input(old(self)),
            !final(self).collecting(),
            final(self).value() == Seq::<u8>::empty(),
            final(self).provides(r),
            final(self).bytes_of(r) == old(self).value(),
            requires_borrowed ==> r is BytesRef,
            r is Vec <==> old(self).separate() && !requires_borrowed,
            r == BytesValue::BytesRef(BytesRefProvider::BytesValueBuf) <==> old(self).separate()
                && requires_borrowed,
            final(self).holds_value() <==> !old(self).separate(),
            final(self).space() == old(self).space(),
    {
        let end: usize = self.kept_end();
        self.is_collecting = false;
        if self.is_using_bytes_buf {
            // Push remainder into buffer
            let bytes = slice_subrange(self.buf.as_slice(), self.buf_value_start, end);
            append_bytes(&mut self.value_bytes_buf, bytes);
            if requires_borrowed {
                BytesValue::BytesRef(BytesRefProvider::BytesValueBuf)
            } else {
                let mut bytes: Vec<u8> = Vec::with_capacity(INITIAL_VALUE_BYTES_BUF_CAPACITY);
                core::mem::swap(&mut bytes, &mut self.value_bytes_buf);
                BytesValue::Vec(bytes)
            }
        } else {
            // Indicate that `buf` contains the value, to prevent accidental modification
            self.buf_used_for_bytes_value = true;
            let r = BytesValue::BytesRef(
                BytesRefProvider::ReaderBuf { start: self.buf_value_start, end },
            );
            assert(self.bytes_of(r) =~= old(self).value());
            r
        }
    }

    /// Makes room for more input. The result tells how many bytes can be added.
    pub fn prepare_fill(&mut self) -> (r: usize)
        requires
            old(self).wf(),
            !old(self).holds_value(),
        ensures
            final(self).wf(),
            final(self).same_input(old(self)),
            final(self).collecting() == old(self).collecting(),
            final(self).value() == old(self).value(),
            old(self).collecting() ==> (final(self).separate() <==> old(self).separate() || (old(
                self,
            ).space() == 0 && old(self).value().len() > 0)),
            !final(self).holds_value(),
            r == final(self).space(),
            final(self).space() == if old(self).space() == 0 || (old(self).unread().len() == 0 && (
            !old(self).collecting() || old(self).separate())) {
                READER_BUF_SIZE - old(self).unread().len()
            } else {
                old(self).space()
            },
            r <= READER_BUF_SIZE - final(self).unread().len(),
            final(self).unread().len() < READER_BUF_SIZE ==> r > 0,
    {
        let is_empty = self.buf_pos == self.buf_end_pos;
        // Check if can / have to start at index 0 of `buf`
        if self.buf_end_pos >= READER_BUF_SIZE || (is_empty && (!self.is_collecting
            || self.is_using_bytes_buf)) {
            if self.is_collecting {
                // Save all bytes which should be kept
                self.save_kept();
            }
            self.move_to_start();
        }
        // Otherwise continue filling `buf` behind previously read data

        READER_BUF_SIZE - self.buf_end_pos
    }

    /// Adds input behind the unprocessed input.
    pub fn add_input(&mut self, bytes: &[u8])
        requires
            old(self).wf(),
            !old(self).holds_value(),
            bytes@.len() <= old(self).space(),
        ensures
            final(self).wf(),
            final(self).unread() == old(self).unread() + bytes@,
            final(self).eof() == old(self).eof(),
            final(self).collecting() == old(self).collecting(),
            final(self).value() == old(self).value(),
            final(self).separate() == old(self).separate(),
            final(self).value_ended() == old(self).value_ended(),
            final(self).space() == old(self).space() - bytes@.len(),
            !final(self).holds_value(),
    {
        let end: usize = self.buf_end_pos;
        let mut i: usize = 0;
        while i < bytes.len()
            invariant
                end == old(self).buf_end_pos,
                i <= bytes@.len(),
                end + bytes@.len() <= READER_BUF_SIZE,
                self.buf@.len() == READER_BUF_SIZE,
                old(self).buf@.len() == READER_BUF_SIZE,
                forall|j: int| 0 <= j < end ==> self.buf@[j] == #[trigger] old(self).buf@[j],
                forall|j: int| 0 <= j < i ==> #[trigger] self.buf@[end + j] == bytes@[j],
                *self == (InputBuffer { buf: self.buf, ..*old(self) }),
            decreases bytes@.len() - i,
        {
            self.buf[end + i] = bytes[i];
            i = i + 1;
        }
        self.buf_end_pos = end + bytes.len();
        assert(self.unread() =~= old(self).unread() + bytes@) by {
            assert forall|j: int| 0 <= j < self.unread().len() implies self.unread()[j] == (old(
                self,
            ).unread() + bytes@)[j] by {
                if self.buf_pos + j >= end {
                    assert(self.buf@[end + (self.buf_pos + j - end)] == bytes@[self.buf_pos + j
                        - end]);
                }
            }
        }
        assert(self.value() =~= old(self).value());
    }

    /// Notes that the end of the input has been reached.
    pub fn set_eof(&mut self)
        requires
            old(self).wf(),
        ensures
            final(self).wf(),
            final(self).unread() == old(self).unread(),
            final(self).eof(),
            final(self).collecting() == old(self).collecting(),
            final(self).value() == old(self).value(),
            final(self).separate() == old(self).separate(),
            final(self).value_ended() == old(self).value_ended(),
            final(self).holds_value() == old(self).holds_value(),
    {
        self.reached_eof = true;
    }
}

impl BytesRefProvider {
    fn get_bytes_ref<'j>(&self, input: &'j InputBuffer) -> (r: &'j [u8])
        requires
            input.wf(),
            input.provides(BytesValue::BytesRef(*self)),
        ensures
            r@ == input.bytes_of(BytesValue::BytesRef(*self)),
    {
        match self {
            BytesRefProvider::ReaderBuf { start, end } => slice_subrange(
                input.buf.as_slice(),
                *start,
                *end,
            ),
            BytesRefProvider::BytesValueBuf => input.value_bytes_buf.as_slice(),
        }
    }

    fn get_str<'j>(&self, input: &'j InputBuffer) -> (r: &'j str)
        requires
            input.wf(),
            input.provides(BytesValue::BytesRef(*self)),
            valid_utf8(input.bytes_of(BytesValue::BytesRef(*self))),
        ensures
            r@ == decode_utf8(input.bytes_of(BytesValue::BytesRef(*self))),
    {
        to_str(self.get_bytes_ref(input))
    }
}

impl BytesValue {
    /// Gets the value as `String`.
    pub fn get_string(self, input: &mut InputBuffer) -> (r: String)
        requires
            old(input).wf(),
            old(input).provides(self),
            !old(input).collecting(),
            old(input).holds_value() ==> self is BytesRef,
            valid_utf8(old(input).bytes_of(self)),
        ensures
            final(input).wf(),
            final(input).same_input(old(input)),
            !final(input).collecting(),
            final(input).value() == Seq::<u8>::empty(),
            !final(input).holds_value(),
            r@ == decode_utf8(old(input).bytes_of(self)),
    {
        match self {
            BytesValue::BytesRef(provider) => {
                // Afterwards value cannot be obtained from `buf` anymore
                input.buf_used_for_bytes_value = false;
                provider.get_str(input).to_owned()
            },
            BytesValue::Vec(bytes) => to_string(bytes),
        }
    }

    /// Gets the value as `str`, without giving it up.
    pub fn get_str_peek<'j>(&self, input: &'j InputBuffer) -> (r: &'j str)
        requires
            input.wf(),
            input.provides(*self),
            *self is BytesRef,
            valid_utf8(input.bytes_of(*self)),
        ensures
            r@ == decode_utf8(input.bytes_of(*self)),
    {
        match self {
            BytesValue::BytesRef(provider) => provider.get_str(input),
            // Unreachable because the value was required to be borrowed
            BytesValue::Vec(_) => "",
        }
    }

    /// Gets the value as `str`.
    pub fn get_str(self, input: &mut InputBuffer) -> (r: &str)
        requires
            old(input).wf(),
            old(input).provides(self),
            !old(input).collecting(),
            self is BytesRef,
            valid_utf8(old(input).bytes_of(self)),
        ensures
            final(input).wf(),
            final(input).same_input(old(input)),
            !final(input).collecting(),
            final(input).value() == Seq::<u8>::empty(),
            !final(input).holds_value(),
            r@ == decode_utf8(old(input).bytes_of(self)),
    {
        // Afterwards value cannot be obtained from `buf` anymore
        input.buf_used_for_bytes_value = false;
        self.get_str_peek(input)
    }
}

} // verus!
