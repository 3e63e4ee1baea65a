//! Recognizing whitespace and comments, one piece at a time.

use vstd::prelude::*;
use vstd::slice::slice_subrange;

use crate::chars::{self, read_utf8_multibyte, CharUnit};
use crate::text;
use crate::types::{Fault, SyntaxErrorKind};

verus! {

/// Whether the next byte belongs to a comment.
#[derive(Clone, Copy, PartialEq, Eq, Structural, Debug)]
pub enum CommentMode {
    /// Not inside a comment.
    Outside,
    /// Inside a comment which ends with its line.
    Line,
    /// Inside a comment which ends with `*/`.
    Block,
}

/// What the input starts with, where whitespace and comments may stand.
#[derive(Clone, Copy, Debug)]
pub enum SpaceUnit {
    /// More input is needed.
    Incomplete,
    /// Neither whitespace nor a comment.
    Stop,
    /// The end of the input.
    End,
    /// A piece of `len` bytes to skip. It is either a line break or takes up the given
    /// number of columns, and leaves the reader in the given mode.
    Move { len: usize, columns: usize, line_break: bool, mode: CommentMode },
    /// Malformed input; the error is found `ahead` ASCII characters further on.
    Fault { fault: Fault, ahead: usize },
}

/// A piece which stays on its line.
pub open spec fn skip_unit(len: usize, columns: usize, mode: CommentMode) -> SpaceUnit {
    SpaceUnit::Move { len, columns, line_break: false, mode }
}

pub open spec fn break_unit(len: usize, mode: CommentMode) -> SpaceUnit {
    SpaceUnit::Move { len, columns: 0, line_break: true, mode }
}

pub open spec fn fault_unit(kind: SyntaxErrorKind, ahead: usize) -> SpaceUnit {
    SpaceUnit::Fault { fault: Fault::Syntax(kind), ahead }
}

/// A line break at the start of `s`: _LF_, _CR_ or _CR LF_.
pub open spec fn line_break_unit(mode: CommentMode, s: Seq<u8>, eof: bool) -> SpaceUnit {
    if s[0] == 0x0A {
        break_unit(1, mode)
    } else if s.len() > 1 {
        if s[1] == 0x0A {
            break_unit(2, mode)
        } else {
            break_unit(1, mode)
        }
    } else if eof {
        break_unit(1, mode)
    } else {
        SpaceUnit::Incomplete
    }
}

/// A character at the start of `s` which is part of a comment and no line break.
pub open spec fn comment_char_unit(mode: CommentMode, s: Seq<u8>, eof: bool) -> SpaceUnit {
    if s[0] < 0x20 && s[0] != 0x09 {
        fault_unit(SyntaxErrorKind::NotEscapedControlCharacter, 0)
    } else if s[0] < 0x80 {
        skip_unit(1, 1, mode)
    } else {
        match chars::multibyte_unit(s, eof) {
            CharUnit::Incomplete => SpaceUnit::Incomplete,
            CharUnit::Char(len) => skip_unit(len, 1, mode),
            CharUnit::Fault(fault) => SpaceUnit::Fault { fault, ahead: 0 },
        }
    }
}

/// What `s` starts with outside of comments.
pub open spec fn outside_unit(allow_comments: bool, s: Seq<u8>, eof: bool) -> SpaceUnit {
    if s[0] == 0x20 || s[0] == 0x09 {
        skip_unit(1, 1, CommentMode::Outside)
    } else if s[0] == 0x0A || s[0] == 0x0D {
        line_break_unit(CommentMode::Outside, s, eof)
    } else if s[0] != 0x2F {
        SpaceUnit::Stop
    } else if !allow_comments {
        fault_unit(SyntaxErrorKind::CommentsNotEnabled, 0)
    } else if s.len() == 1 {
        if eof {
            fault_unit(SyntaxErrorKind::IncompleteComment, 1)
        } else {
            SpaceUnit::Incomplete
        }
    } else if s[1] == 0x2A {
        skip_unit(2, 2, CommentMode::Block)
    } else if s[1] == 0x2F {
        skip_unit(2, 2, CommentMode::Line)
    } else {
        fault_unit(SyntaxErrorKind::IncompleteComment, 1)
    }
}

/// What `s` starts with inside a comment which ends with its line. The line break itself is
/// not part of the comment.
pub open spec fn line_comment_unit(s: Seq<u8>, eof: bool) -> SpaceUnit {
    if s[0] == 0x0A || s[0] == 0x0D {
        skip_unit(0, 0, CommentMode::Outside)
    } else {
        comment_char_unit(CommentMode::Line, s, eof)
    }
}

/// What `s` starts with inside a comment which ends with `*/`.
pub open spec fn block_comment_unit(s: Seq<u8>, eof: bool) -> SpaceUnit {
    if s[0] == 0x2A {
        if s.len() == 1 {
            if eof {
                fault_unit(SyntaxErrorKind::BlockCommentNotClosed, 1)
            } else {
                SpaceUnit::Incomplete
            }
        } else if s[1] == 0x2F {
            skip_unit(2, 2, CommentMode::Outside)
        } else {
            skip_unit(1, 1, CommentMode::Block)
        }
    } else if s[0] == 0x0A || s[0] == 0x0D {
        line_break_unit(CommentMode::Block, s, eof)
    } else {
        comment_char_unit(CommentMode::Block, s, eof)
    }
}

/// What `s` starts with, where whitespace and comments may stand. `eof` tells that no input
/// follows `s`.
pub open spec fn space_unit(
    mode: CommentMode,
    allow_comments: bool,
    s: Seq<u8>,
    eof: bool,
) -> SpaceUnit {
    if s.len() == 0 {
        if !eof {
            SpaceUnit::Incomplete
        } else if mode == CommentMode::Block {
            fault_unit(SyntaxErrorKind::BlockCommentNotClosed, 0)
        } else {
            SpaceUnit::End
        }
    } else {
        match mode {
            CommentMode::Outside => outside_unit(allow_comments, s, eof),
            CommentMode::Line => line_comment_unit(s, eof),
            CommentMode::Block => block_comment_unit(s, eof),
        }
    }
}

/// Recognizes a line break.
fn read_line_break(mode: CommentMode, s: &[u8], eof: bool) -> (r: SpaceUnit)
    requires
        s@.len() > 0,
    ensures
        r == line_break_unit(mode, s@, eof),
{
    // Count \r\n (Windows line break) as only one line break
    if s[0] != 0x0A && s.len() > 1 && s[1] == 0x0A {
        SpaceUnit::Move { len: 2, columns: 0, line_break: true, mode }
    } else if s[0] != 0x0A && s.len() == 1 && !eof {
        SpaceUnit::Incomplete
    } else {
        SpaceUnit::Move { len: 1, columns: 0, line_break: true, mode }
    }
}

/// Recognizes a character of a comment.
fn read_comment_char(mode: CommentMode, s: &[u8], eof: bool) -> (r: SpaceUnit)
    requires
        s@.len() > 0,
    ensures
        r == comment_char_unit(mode, s@, eof),
{
    let byte: u8 = s[0];
    if byte < 0x20 && byte != 0x09 {
        SpaceUnit::Fault {
            fault: Fault::Syntax(SyntaxErrorKind::NotEscapedControlCharacter),
            ahead: 0,
        }
    } else if byte < 0x80 {
        SpaceUnit::Move { len: 1, columns: 1, line_break: false, mode }
    } else {
        // Validate the UTF-8 data, but ignore it
        match read_utf8_multibyte(s, eof) {
            CharUnit::Incomplete => SpaceUnit::Incomplete,
            CharUnit::Char(len) => SpaceUnit::Move { len, columns: 1, line_break: false, mode },
            CharUnit::Fault(fault) => SpaceUnit::Fault { fault, ahead: 0 },
        }
    }
}

/// Recognizes one piece of whitespace or comment.
pub fn read_space_unit(mode: CommentMode, allow_comments: bool, s: &[u8], eof: bool) -> (r:
    SpaceUnit)
    ensures
        r == space_unit(mode, allow_comments, s@, eof),
{
    if s.len() == 0 {
        return if !eof {
            SpaceUnit::Incomplete
        } else {
            match mode {
                CommentMode::Block => SpaceUnit::Fault {
                    fault: Fault::Syntax(SyntaxErrorKind::BlockCommentNotClosed),
                    ahead: 0,
                },
                _ => SpaceUnit::End,
            }
        };
    }
    let byte: u8 = s[0];
    match mode {
        CommentMode::Outside => {
            if byte == 0x20 || byte == 0x09 {
                SpaceUnit::Move { len: 1, columns: 1, line_break: false, mode: CommentMode::Outside }
            } else if byte == 0x0A || byte == 0x0D {
                read_line_break(CommentMode::Outside, s, eof)
            } else if byte != 0x2F {
                SpaceUnit::Stop
            } else if !allow_comments {
                SpaceUnit::Fault {
                    fault: Fault::Syntax(SyntaxErrorKind::CommentsNotEnabled),
                    ahead: 0,
                }
            } else if s.len() == 1 {
                if eof {
                    SpaceUnit::Fault {
                        fault: Fault::Syntax(SyntaxErrorKind::IncompleteComment),
                        ahead: 1,
                    }
                } else {
                    SpaceUnit::Incomplete
                }
            } else if s[1] == 0x2A {
                SpaceUnit::Move { len: 2, columns: 2, line_break: false, mode: CommentMode::Block }
            } else if s[1] == 0x2F {
                SpaceUnit::Move { len: 2, columns: 2, line_break: false, mode: CommentMode::Line }
            } else {
                SpaceUnit::Fault {
                    fault: Fault::Syntax(SyntaxErrorKind::IncompleteComment),
                    ahead: 1,
                }
            }
        },
        CommentMode::Line => {
            if byte == 0x0A || byte == 0x0D {
                // Don't consume LF or CR, it is whitespace again
                SpaceUnit::Move { len: 0, columns: 0, line_break: false, mode: CommentMode::Outside }
            } else {
                read_comment_char(CommentMode::Line, s, eof)
            }
        },
        CommentMode::Block => {
            if byte == 0x2A {
                if s.len() == 1 {
                    if eof {
                        SpaceUnit::Fault {
                            fault: Fault::Syntax(SyntaxErrorKind::BlockCommentNotClosed),
                            ahead: 1,
                        }
                    } else {
                        SpaceUnit::Incomplete
                    }
                } else if s[1] == 0x2F {
                    SpaceUnit::Move {
                        len: 2,
                        columns: 2,
                        line_break: false,
                        mode: CommentMode::Outside,
                    }
                } else {
                    // Don't skip the second byte yet, it might be the next '*', e.g. for "/***/"
                    SpaceUnit::Move {
                        len: 1,
                        columns: 1,
                        line_break: false,
                        mode: CommentMode::Block,
                    }
                }
            } else if byte == 0x0A || byte == 0x0D {
                read_line_break(CommentMode::Block, s, eof)
            } else {
                read_comment_char(CommentMode::Block, s, eof)
            }
        },
    }
}

/// The number of bytes of malformed input up to and including the one which makes it malformed,
/// where the first `start` bytes do not.
pub open spec fn malformed_len(
    mode: CommentMode,
    allow_comments: bool,
    s: Seq<u8>,
    start: int,
) -> int
    decreases s.len() - start,
{
    if start < s.len() && !(space_unit(mode, allow_comments, s.take(start), false) is Fault) {
        malformed_len(mode, allow_comments, s, start + 1)
    } else {
        start
    }
}

/// The number of bytes which are consumed when malformed input is found. Where no comment may
/// start, and where a control character may not stand, nothing is consumed.
pub open spec fn fault_len(mode: CommentMode, allow_comments: bool, s: Seq<u8>, fault: Fault) -> int {
    if fault == Fault::Syntax(SyntaxErrorKind::CommentsNotEnabled) || fault == Fault::Syntax(
        SyntaxErrorKind::NotEscapedControlCharacter,
    ) {
        0
    } else {
        malformed_len(mode, allow_comments, s, 0)
    }
}

/// Counts the bytes which are consumed when malformed input is found.
pub fn count_fault(mode: CommentMode, allow_comments: bool, s: &[u8], fault: Fault) -> (r: usize)
    ensures
        r == fault_len(mode, allow_comments, s@, fault),
        r <= s@.len(),
{
    match fault {
        Fault::Syntax(SyntaxErrorKind::CommentsNotEnabled) => {
            return 0;
        },
        Fault::Syntax(SyntaxErrorKind::NotEscapedControlCharacter) => {
            return 0;
        },
        _ => {},
    }
    let mut i: usize = 0;
    while i < s.len()
        invariant
            i <= s@.len(),
            fault_len(mode, allow_comments, s@, fault) == malformed_len(
                mode,
                allow_comments,
                s@,
                i as int,
            ),
        decreases s@.len() - i,
    {
        let head = slice_subrange(s, 0, i);
        assert(head@ =~= s@.take(i as int));
        if let SpaceUnit::Fault { .. } = read_space_unit(mode, allow_comments, head, false) {
            return i;
        }
        i = i + 1;
    }
    i
}

/// How much of the input is malformed does not depend on the input behind it.
pub proof fn lemma_malformed_stable(
    mode: CommentMode,
    allow_comments: bool,
    s: Seq<u8>,
    more: Seq<u8>,
    start: int,
)
    requires
        0 <= start <= s.len(),
    ensures
        start <= malformed_len(mode, allow_comments, s, start) <= s.len(),
        space_unit(mode, allow_comments, s, false) is Fault ==> malformed_len(
            mode,
            allow_comments,
            s + more,
            start,
        ) == malformed_len(mode, allow_comments, s, start),
    decreases s.len() - start,
{
    assert((s + more).take(start) =~= s.take(start));
    if start < s.len() {
        lemma_malformed_stable(mode, allow_comments, s, more, start + 1);
    } else {
        assert(s.take(start) =~= s);
    }
}

/// At least the bytes are consumed which are counted for the place of the error.
pub proof fn lemma_fault_len(mode: CommentMode, allow_comments: bool, s: Seq<u8>, eof: bool)
    ensures
        space_unit(mode, allow_comments, s, eof) matches SpaceUnit::Fault { fault, ahead }
            ==> ahead <= fault_len(mode, allow_comments, s, fault) <= s.len(),
{
    lemma_malformed_stable(mode, allow_comments, s, Seq::empty(), 0);
    if s.len() > 0 {
        assert(s.take(0).len() == 0);
        assert(malformed_len(mode, allow_comments, s, 0) == malformed_len(
            mode,
            allow_comments,
            s,
            1,
        ));
        lemma_malformed_stable(mode, allow_comments, s, Seq::empty(), 1);
    }
}

/// A piece which is decided does not depend on the input behind it.
pub proof fn lemma_space_stable(
    mode: CommentMode,
    allow_comments: bool,
    s: Seq<u8>,
    more: Seq<u8>,
    eof: bool,
)
    requires
        !(space_unit(mode, allow_comments, s, false) is Incomplete),
    ensures
        space_unit(mode, allow_comments, s + more, eof) == space_unit(
            mode,
            allow_comments,
            s,
            false,
        ),
{
    let t = s + more;
    assert(t[0] == s[0]);
    assert(s.len() > 1 ==> t[1] == s[1]);
    if s[0] >= 0x80 && mode != CommentMode::Outside {
        chars::lemma_multibyte_stable(s, more, eof);
    }
}

/// What every piece is known for.
pub proof fn lemma_space_unit(mode: CommentMode, allow_comments: bool, s: Seq<u8>, eof: bool)
    ensures
        space_unit(mode, allow_comments, s, eof) is Incomplete ==> !eof
            && s.len() < text::LONGEST_UNIT,
        space_unit(mode, allow_comments, s, eof) matches SpaceUnit::Move {
            len,
            columns,
            line_break,
            mode: next,
        } ==> len <= s.len() && columns <= len && (line_break ==> len > 0) && (len == 0 ==> mode
            == CommentMode::Line && next == CommentMode::Outside) && (next != CommentMode::Outside
            ==> mode == next || allow_comments),
        space_unit(mode, allow_comments, s, eof) matches SpaceUnit::Fault { fault, ahead }
            ==> ahead <= s.len() && ahead <= 1,
        space_unit(mode, allow_comments, s, eof) is Stop ==> s.len() > 0 && mode
            == CommentMode::Outside,
        space_unit(mode, allow_comments, s, eof) is End ==> s.len() == 0 && eof,
{
}

} // verus!
