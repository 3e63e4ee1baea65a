//! Describing the state of a reader for debugging.

use vstd::prelude::*;
use vstd::slice::slice_subrange;
use vstd::string::*;
use vstd::utf8::*;

use crate::buffer;
use crate::chars;
use crate::chars::{read_utf8_multibyte, CharUnit};
use crate::types::{JsonPathPiece, PeekedValue, Place, ReaderSettings, StackValue};

verus! {

/// Number of characters of the buffer content which are shown at most.
pub const PREVIEW_CHARS: usize = 45;

/// Number of invalid bytes of the buffer content which are shown at most.
pub const PREVIEW_INVALID_BYTES: usize = 30;

/// The invalid bytes are shown if there are fewer bytes in front of them.
pub const PREVIEW_SHORT_PREFIX: usize = 15;

/// The start of the buffer content.
#[derive(Debug)]
pub struct BufferPreview {
    /// Number of bytes in the buffer.
    pub count: usize,
    /// The content, with `...` at its end if it is not complete.
    pub text: String,
    /// The bytes behind the text, if they are no valid UTF-8 and the text is short.
    pub invalid: Option<Vec<u8>>,
}

/// What is known about a reader.
#[derive(Debug)]
pub struct ReaderDescription {
    /// The start of the buffer content; `None` if the end of the input has been reached.
    pub buffer: Option<BufferPreview>,
    pub peeked: Option<PeekedValue>,
    pub is_empty: bool,
    pub expects_member_name: bool,
    pub stack: Vec<StackValue>,
    pub is_string_value_reader_active: bool,
    pub place: Place,
    pub json_path: Option<Vec<JsonPathPiece>>,
    pub reader_settings: ReaderSettings,
}

/// The number of bytes up to which `s` is valid UTF-8.
pub open spec fn valid_up_to(s: Seq<u8>) -> int
    decreases s.len(),
{
    if s.len() > 0 && valid_first_scalar(s) {
        let len = length_of_first_scalar(s);
        if 0 < len <= s.len() {
            len + valid_up_to(s.skip(len))
        } else {
            0
        }
    } else {
        0
    }
}

/// The characters which are shown of a text.
pub open spec fn shown_chars(chars: Seq<char>) -> Seq<char> {
    if chars.len() > PREVIEW_CHARS {
        chars.take(PREVIEW_CHARS as int)
    } else {
        chars
    }
}

/// Whether a preview shows the buffer content `content`.
pub open spec fn previews(preview: BufferPreview, content: Seq<u8>) -> bool {
    let end = valid_up_to(content);
    let chars = decode_utf8(content.take(end));
    let shown = shown_chars(chars);
    &&& preview.count == content.len()
    &&& preview.text@ == if end < content.len() || chars.len() > PREVIEW_CHARS {
        shown + "..."@
    } else {
        shown
    }
    &&& preview.invalid is Some <==> end < content.len() && encode_utf8(shown).len()
        < PREVIEW_SHORT_PREFIX
    &&& preview.invalid matches Some(bytes) ==> bytes@ == content.subrange(
        end,
        if content.len() < end + PREVIEW_INVALID_BYTES {
            content.len() as int
        } else {
            end + PREVIEW_INVALID_BYTES
        },
    )
}

/// What is valid up to a point consists of complete characters, and no longer part of the
/// text does.
pub proof fn law_valid_up_to(s: Seq<u8>)
    ensures
        0 <= valid_up_to(s) <= s.len(),
        valid_utf8(s.take(valid_up_to(s))),
        forall|n: int| valid_up_to(s) < n <= s.len() ==> !valid_utf8(#[trigger] s.take(n)),
    decreases s.len(),
{
    if s.len() > 0 && valid_first_scalar(s) {
        let len = length_of_first_scalar(s);
        chars::lemma_first_scalar_valid(s);
        let tail = s.skip(len);
        law_valid_up_to(tail);
        let end = valid_up_to(s);
        let valid = s.take(end);
        assert(valid =~= s.take(len) + tail.take(end - len));
        valid_utf8_concat(s.take(len), tail.take(end - len));
        assert forall|n: int| end < n <= s.len() implies !valid_utf8(#[trigger] s.take(n)) by {
            assert(valid_first_scalar(s.take(n)));
            assert(pop_first_scalar(s.take(n)) =~= tail.take(n - len));
        }
    } else {
        assert(s.take(0) =~= Seq::<u8>::empty());
        assert forall|n: int| 0 < n <= s.len() implies !valid_utf8(#[trigger] s.take(n)) by {
            if valid_utf8(s.take(n)) {
                assert(valid_first_scalar(s.take(n)));
                assert(valid_first_scalar(s));
            }
        }
    }
}

/// The number of bytes of the character which the text starts with, 0 if it starts with none.
fn first_char_len(s: &[u8]) -> (r: usize)
    ensures
        r > 0 <==> s@.len() > 0 && valid_first_scalar(s@),
        r > 0 ==> r == length_of_first_scalar(s@) && r <= s@.len(),
{
    if s.len() == 0 {
        return 0;
    }
    let byte: u8 = s[0];
    if byte < 0x80 {
        proof {
            assert((byte & 0x7F) < 0x80) by (bit_vector);
        }
        1
    } else {
        match read_utf8_multibyte(s, true) {
            CharUnit::Char(len) => len,
            _ => 0,
        }
    }
}

/// Previews the buffer content.
#[verifier::spinoff_prover]
#[verifier::rlimit(40)]
pub fn preview_buffer(content: &[u8]) -> (r: BufferPreview)
    ensures
        previews(r, content@),
{
    let ghost all = content@;
    let mut end: usize = 0;
    // Number of characters, and up to where at most the allowed number of them is
    let mut chars_count: usize = 0;
    let mut shown_end: usize = 0;
    proof {
        assert(all.skip(0) =~= all);
        assert(all.take(0) =~= Seq::<u8>::empty());
    }
    loop
        invariant
            all == content@,
            end <= all.len(),
            shown_end <= end,
            valid_utf8(all.take(end as int)),
            valid_utf8(all.take(shown_end as int)),
            decode_utf8(all.take(end as int)).len() == chars_count,
            chars_count <= end,
            decode_utf8(all.take(shown_end as int)) == shown_chars(
                decode_utf8(all.take(end as int)),
            ),
            chars_count <= PREVIEW_CHARS ==> shown_end == end,
            valid_up_to(all) == end + valid_up_to(all.skip(end as int)),
        ensures
            valid_up_to(all) == end,
        decreases all.len() - end,
    {
        let rest = slice_subrange(content, end, content.len());
        assert(rest@ =~= all.skip(end as int));
        let len: usize = first_char_len(rest);
        if len == 0 {
            break;
        }
        proof {
            let next = end + len;
            chars::lemma_first_scalar_valid(rest@);
            assert(all.take(next as int) =~= all.take(end as int) + rest@.take(len as int));
            chars::lemma_decode_concat(all.take(end as int), rest@.take(len as int));
            assert(all.skip(next as int) =~= rest@.skip(len as int));
            let old_chars = decode_utf8(all.take(end as int));
            let new_chars = decode_utf8(all.take(next as int));
            if chars_count >= PREVIEW_CHARS {
                assert(shown_chars(new_chars) =~= shown_chars(old_chars));
            } else {
                assert(shown_chars(new_chars) =~= new_chars);
            }
        }
        end = end + len;
        if chars_count < PREVIEW_CHARS {
            shown_end = end;
        }
        chars_count = chars_count + 1;
    }
    let mut text = buffer::to_str(slice_subrange(content, 0, shown_end)).to_owned();
    proof {
        assert(content@.subrange(0, shown_end as int) =~= all.take(shown_end as int));
        decode_utf8_encode_utf8(all.take(shown_end as int));
    }
    if end < content.len() || chars_count > PREVIEW_CHARS {
        text.append("...");
    }
    let invalid = if end < content.len() && shown_end < PREVIEW_SHORT_PREFIX {
        // Include some of the invalid bytes which start after the prefix
        let invalid_end: usize = if content.len() - end < PREVIEW_INVALID_BYTES {
            content.len()
        } else {
            end + PREVIEW_INVALID_BYTES
        };
        let mut bytes: Vec<u8> = Vec::new();
        buffer::append_bytes(&mut bytes, slice_subrange(content, end, invalid_end));
        assert(bytes@ =~= content@.subrange(end as int, invalid_end as int));
        Some(bytes)
    } else {
        None
    };
    BufferPreview { count: content.len(), text, invalid }
}

/// Up to 45 characters of the buffer content are shown. What is left out is marked with `...`.
pub proof fn law_preview(preview: BufferPreview, content: Seq<u8>)
    requires
        previews(preview, content),
        valid_utf8(content),
    ensures
        preview.count == content.len(),
        decode_utf8(content).len() <= 45 ==> preview.text@ == decode_utf8(content),
        decode_utf8(content).len() > 45 ==> preview.text@ == decode_utf8(content).take(45)
            + "..."@,
        preview.invalid is None,
{
    law_valid_up_to(content);
    assert(content.take(content.len() as int) =~= content);
    if valid_up_to(content) < content.len() {
        assert(!valid_utf8(content.take(content.len() as int)));
    }
}

} // verus!
