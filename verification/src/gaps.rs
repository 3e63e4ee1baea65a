//! Whitespace and comments may stand between the tokens of a document, and mean nothing there.
//!
//! What whitespace and comments are is written down here byte by byte, for documents as they are
//! written and not for the way in which they are read.

use vstd::prelude::*;
use vstd::utf8::*;

use crate::chars;
use crate::chars::CharUnit;
use crate::model;
use crate::model::{Outcome, State};
use crate::position;
use crate::space::{CommentMode, SpaceUnit};
use crate::types::{ErrorKind, ErrorModel, SyntaxErrorKind};

verus! {

/// Space, tab, _LF_ or _CR_.
pub open spec fn is_blank(byte: u8) -> bool {
    byte == 0x20 || byte == 0x09 || byte == 0x0A || byte == 0x0D
}

/// A piece of what may stand between two tokens.
pub enum Gap {
    /// A whitespace character.
    Blank(u8),
    /// A comment between `/*` and `*/`.
    Block(Seq<u8>),
    /// A comment between `//` and the end of the line, and the character which ends the line.
    Line(Seq<u8>, u8),
}

/// Whether text may stand in a comment: it is valid UTF-8, and tab, _LF_ and _CR_ are the only
/// control characters in it.
pub open spec fn is_comment_text(c: Seq<u8>) -> bool {
    &&& valid_utf8(c)
    &&& forall|i: int|
        0 <= i < c.len() ==> #[trigger] c[i] >= 0x20 || c[i] == 0x09 || c[i] == 0x0A || c[i] == 0x0D
}

/// Whether text holds `*/`.
pub open spec fn holds_close(c: Seq<u8>) -> bool {
    exists|i: int| 0 < i < c.len() && c[i - 1] == 0x2A && #[trigger] c[i] == 0x2F
}

/// Whether text holds the end of a line.
pub open spec fn holds_line_end(c: Seq<u8>) -> bool {
    exists|i: int| 0 <= i < c.len() && (#[trigger] c[i] == 0x0A || c[i] == 0x0D)
}

pub open spec fn is_gap_piece(piece: Gap) -> bool {
    match piece {
        Gap::Blank(byte) => byte == 0x20 || byte == 0x09 || byte == 0x0A || byte == 0x0D,
        Gap::Block(c) => is_comment_text(c) && !holds_close(c),
        Gap::Line(c, end) => is_comment_text(c) && !holds_line_end(c) && (end == 0x0A || end
            == 0x0D),
    }
}

/// Whether the pieces may stand between two tokens; `comments` tells whether comments may.
pub open spec fn is_gap(comments: bool, pieces: Seq<Gap>) -> bool {
    forall|i: int|
        0 <= i < pieces.len() ==> is_gap_piece(#[trigger] pieces[i]) && (comments || pieces[i]
            is Blank)
}

pub open spec fn piece_bytes(piece: Gap) -> Seq<u8> {
    match piece {
        Gap::Blank(byte) => seq![byte],
        Gap::Block(c) => seq![0x2Fu8, 0x2Au8] + c + seq![0x2Au8, 0x2Fu8],
        Gap::Line(c, end) => seq![0x2Fu8, 0x2Fu8] + c + seq![end],
    }
}

/// The bytes of all the pieces.
pub open spec fn gap_bytes(pieces: Seq<Gap>) -> Seq<u8>
    decreases pieces.len(),
{
    if pieces.len() == 0 {
        Seq::empty()
    } else {
        piece_bytes(pieces[0]) + gap_bytes(pieces.skip(1))
    }
}

/// The state further on, with `tail` as input.
pub open spec fn further(st: State, tail: Seq<u8>) -> State {
    State {
        place: position::place_behind(st.place, st.rest.take(st.rest.len() - tail.len())),
        rest: tail,
        ..st
    }
}

/// A character of several bytes at the start of a text is one, whatever follows the text.
pub proof fn lemma_multibyte_head(c: Seq<u8>, tail: Seq<u8>, eof: bool)
    requires
        valid_utf8(c),
        c.len() > 0,
        c[0] >= 0x80,
    ensures
        2 <= length_of_first_scalar(c) <= 4,
        length_of_first_scalar(c) <= c.len(),
        chars::multibyte_unit(c + tail, eof) == CharUnit::Char(length_of_first_scalar(c) as usize),
{
    let s = c + tail;
    assert(valid_first_scalar(c));
    assert(s[0] == c[0]);
    assert(s[1] == c[1]);
    assert(c.len() > 2 ==> s[2] == c[2]);
    assert(c.len() > 3 ==> s[3] == c[3]);
    assert(valid_first_scalar(s));
}

/// The text behind the first character.
proof fn lemma_comment_tail(c: Seq<u8>) -> (n: int)
    requires
        is_comment_text(c),
        c.len() > 0,
    ensures
        n == length_of_first_scalar(c),
        1 <= n <= c.len(),
        c[0] < 0x80 ==> n == 1,
        c[0] >= 0x80 ==> n >= 2,
        is_comment_text(c.skip(n)),
        !holds_close(c) ==> !holds_close(c.skip(n)),
        !holds_line_end(c) ==> !holds_line_end(c.skip(n)),
{
    let n = length_of_first_scalar(c);
    assert(valid_first_scalar(c));
    let rest = c.skip(n);
    assert(pop_first_scalar(c) =~= rest);
    assert forall|i: int| 0 <= i < rest.len() implies #[trigger] rest[i] >= 0x20 || rest[i] == 0x09
        || rest[i] == 0x0A || rest[i] == 0x0D by {
        assert(rest[i] == c[n + i]);
    }
    if holds_close(rest) {
        let i = choose|i: int| 0 < i < rest.len() && rest[i - 1] == 0x2A && #[trigger] rest[i]
            == 0x2F;
        assert(c[n + i - 1] == 0x2A && c[n + i] == 0x2F);
    }
    if holds_line_end(rest) {
        let i = choose|i: int| 0 <= i < rest.len() && (#[trigger] rest[i] == 0x0A || rest[i]
            == 0x0D);
        assert(c[n + i] == rest[i]);
    }
    n
}

/// The state behind the first piece of whitespace or comment.
proof fn lemma_move(st: State, len: int) -> (next: State)
    requires
        position::countable(st),
        st.peeked is None,
        model::space_here(st) matches SpaceUnit::Move { len: l, .. } && l == len,
        len <= st.rest.len(),
    ensures
        model::space_run(st) == model::space_run(next),
        position::travelled(st, next),
        position::countable(next),
        next == (State {
            place: next.place,
            comment: model::space_here(st)->Move_mode,
            rest: st.rest.skip(len),
            ..st
        }),
{
    position::lemma_travel_space_unit(st);
    match model::space_here(st) {
        SpaceUnit::Move { len: l, columns, line_break, mode } => {
            model::space_moved(st, l, columns, line_break, mode)
        },
        _ => st,
    }
}

/// The text of a block comment is skipped, up to something which does not continue it.
#[verifier::spinoff_prover]
#[verifier::rlimit(40)]
proof fn lemma_block_text(st: State, c: Seq<u8>, tail: Seq<u8>) -> (next: State)
    requires
        position::countable(st),
        st.peeked is None,
        st.comment == CommentMode::Block,
        is_comment_text(c),
        !holds_close(c),
        st.rest == c + tail,
        tail.len() > 0,
        tail[0] != 0x0A,
        tail[0] != 0x2F,
    ensures
        model::space_run(st) == model::space_run(next),
        position::travelled(st, next),
        next == (State { place: next.place, rest: tail, ..st }),
    decreases c.len(),
{
    if c.len() == 0 {
        assert(st.rest =~= tail);
        position::lemma_stay(st, st);
        st
    } else {
        let n = lemma_comment_tail(c);
        assert(st.rest[0] == c[0]);
        assert(c.len() > 1 ==> st.rest[1] == c[1]);
        assert(c.len() == 1 ==> st.rest[1] == tail[0]);
        if c[0] >= 0x80 {
            lemma_multibyte_head(c, tail, st.eof);
        }
        if c[0] == 0x2A && c.len() > 1 {
            assert(c[1] != 0x2F) by {
                if c[1] == 0x2F {
                    assert(c[1 - 1] == 0x2A);
                }
            }
        }
        if c[0] == 0x0D && c.len() > 1 && c[1] == 0x0A {
            let m = lemma_comment_tail(c.skip(1));
            assert(c.skip(1)[0] == c[1]);
            assert(c.skip(1).skip(1) =~= c.skip(2));
            assert(st.rest.skip(2) =~= c.skip(2) + tail);
            let mid = lemma_move(st, 2);
            let next = lemma_block_text(mid, c.skip(2), tail);
            position::lemma_travel_on(st, mid, next);
            next
        } else {
            assert(st.rest.skip(n) =~= c.skip(n) + tail);
            let mid = lemma_move(st, n);
            let next = lemma_block_text(mid, c.skip(n), tail);
            position::lemma_travel_on(st, mid, next);
            next
        }
    }
}

/// The text of a comment which ends with its line is skipped, up to something which does not
/// continue it.
#[verifier::spinoff_prover]
#[verifier::rlimit(40)]
proof fn lemma_line_text(st: State, c: Seq<u8>, tail: Seq<u8>) -> (next: State)
    requires
        position::countable(st),
        st.peeked is None,
        st.comment == CommentMode::Line,
        is_comment_text(c),
        !holds_line_end(c),
        st.rest == c + tail,
    ensures
        model::space_run(st) == model::space_run(next),
        position::travelled(st, next),
        next == (State { place: next.place, rest: tail, ..st }),
    decreases c.len(),
{
    if c.len() == 0 {
        assert(st.rest =~= tail);
        position::lemma_stay(st, st);
        st
    } else {
        let n = lemma_comment_tail(c);
        assert(st.rest[0] == c[0]);
        if c[0] >= 0x80 {
            lemma_multibyte_head(c, tail, st.eof);
        }
        assert(st.rest.skip(n) =~= c.skip(n) + tail);
        let mid = lemma_move(st, n);
        let next = lemma_line_text(mid, c.skip(n), tail);
        position::lemma_travel_on(st, mid, next);
        next
    }
}

/// The comment at the start of the input is skipped; of one which ends with its line, all but
/// the end of the line.
#[verifier::spinoff_prover]
#[verifier::rlimit(40)]
proof fn lemma_comment(st: State, piece: Gap, tail: Seq<u8>) -> (next: State)
    requires
        position::countable(st),
        st.peeked is None,
        st.comment == CommentMode::Outside,
        st.settings.allow_comments,
        is_gap_piece(piece),
        !(piece is Blank),
        st.rest == piece_bytes(piece) + tail,
    ensures
        model::space_run(st) == model::space_run(next),
        position::travelled(st, next),
        next == (State {
            place: next.place,
            rest: match piece {
                Gap::Line(_, end) => seq![end] + tail,
                _ => tail,
            },
            ..st
        }),
{
    assert(st.rest[0] == 0x2F);
    match piece {
        Gap::Block(c) => {
            assert(st.rest[1] == 0x2A);
            let mid = lemma_move(st, 2);
            let close = seq![0x2Au8, 0x2Fu8] + tail;
            assert(mid.rest =~= c + close);
            let before = lemma_block_text(mid, c, close);
            assert(before.rest[0] == 0x2A && before.rest[1] == 0x2F);
            let next = lemma_move(before, 2);
            assert(next.rest =~= tail);
            position::lemma_travel_on(st, mid, before);
            position::lemma_travel_on(st, before, next);
            next
        },
        Gap::Line(c, end) => {
            assert(st.rest[1] == 0x2F);
            let mid = lemma_move(st, 2);
            assert(mid.rest =~= c + (seq![end] + tail));
            let before = lemma_line_text(mid, c, seq![end] + tail);
            assert(before.rest.skip(0) =~= before.rest);
            let next = lemma_move(before, 0);
            position::lemma_travel_on(st, mid, before);
            position::lemma_travel_on(st, before, next);
            next
        },
        Gap::Blank(_) => st,
    }
}

/// The other pieces may stand between two tokens too.
proof fn lemma_other_pieces(comments: bool, pieces: Seq<Gap>)
    requires
        is_gap(comments, pieces),
        pieces.len() > 0,
    ensures
        is_gap(comments, pieces.skip(1)),
        is_gap_piece(pieces[0]),
        comments || pieces[0] is Blank,
{
    let others = pieces.skip(1);
    assert forall|i: int| 0 <= i < others.len() implies is_gap_piece(#[trigger] others[i]) && (
    comments || others[i] is Blank) by {
        assert(others[i] == pieces[i + 1]);
    }
}

/// A whitespace character is skipped, together with the second one of a line break of two. The
/// result is the number of pieces behind it which have been skipped.
#[verifier::spinoff_prover]
#[verifier::rlimit(40)]
proof fn lemma_blank(st: State, byte: u8, others: Seq<Gap>, tail: Seq<u8>) -> (r: (State, int))
    requires
        position::countable(st),
        st.peeked is None,
        st.comment == CommentMode::Outside,
        is_blank(byte),
        is_gap(st.settings.allow_comments, others),
        st.rest == seq![byte] + (gap_bytes(others) + tail),
        tail.len() > 0 ==> tail[0] != 0x0A,
        tail.len() == 0 ==> st.eof,
    ensures
        0 <= r.1 <= others.len(),
        model::space_run(st) == model::space_run(r.0),
        position::travelled(st, r.0),
        r.0 == (State { place: r.0.place, rest: r.0.rest, ..st }),
        r.0.rest == gap_bytes(others.skip(r.1)) + tail,
        is_gap(st.settings.allow_comments, others.skip(r.1)),
{
    let behind = gap_bytes(others) + tail;
    assert(st.rest[0] == byte);
    assert(behind.len() > 0 ==> st.rest[1] == behind[0]);
    if byte == 0x0D && behind.len() > 0 && behind[0] == 0x0A {
        lemma_gap_start(others, tail);
        lemma_other_pieces(st.settings.allow_comments, others);
        assert(st.rest.skip(2) =~= gap_bytes(others.skip(1)) + tail);
        (lemma_move(st, 2), 1)
    } else {
        assert(others.skip(0) =~= others);
        assert(st.rest.skip(1) =~= behind);
        (lemma_move(st, 1), 0)
    }
}

/// The first piece is skipped, and the second one where both are one line break.
#[verifier::spinoff_prover]
#[verifier::rlimit(40)]
proof fn lemma_gap_step(st: State, pieces: Seq<Gap>, tail: Seq<u8>) -> (r: (State, int))
    requires
        position::countable(st),
        st.peeked is None,
        st.comment == CommentMode::Outside,
        is_gap(st.settings.allow_comments, pieces),
        pieces.len() > 0,
        st.rest == gap_bytes(pieces) + tail,
        tail.len() > 0 ==> tail[0] != 0x0A,
        tail.len() == 0 ==> st.eof,
    ensures
        1 <= r.1 <= pieces.len(),
        model::space_run(st) == model::space_run(r.0),
        position::travelled(st, r.0),
        r.0 == (State { place: r.0.place, rest: r.0.rest, ..st }),
        r.0.rest == gap_bytes(pieces.skip(r.1)) + tail,
        is_gap(st.settings.allow_comments, pieces.skip(r.1)),
{
    let piece = pieces[0];
    let others = pieces.skip(1);
    let behind = gap_bytes(others) + tail;
    lemma_other_pieces(st.settings.allow_comments, pieces);
    assert(st.rest =~= piece_bytes(piece) + behind);
    match piece {
        Gap::Blank(byte) => {
            let (next, k) = lemma_blank(st, byte, others, tail);
            assert(others.skip(k) =~= pieces.skip(1 + k));
            (next, 1 + k)
        },
        Gap::Block(_) => (lemma_comment(st, piece, behind), 1),
        Gap::Line(_, end) => {
            let from = lemma_comment(st, piece, behind);
            let (next, k) = lemma_blank(from, end, others, tail);
            assert(others.skip(k) =~= pieces.skip(1 + k));
            position::lemma_travel_on(st, from, next);
            (next, 1 + k)
        },
    }
}

/// What stands between two tokens is skipped.
#[verifier::spinoff_prover]
#[verifier::rlimit(40)]
pub proof fn lemma_gap(st: State, pieces: Seq<Gap>, tail: Seq<u8>) -> (next: State)
    requires
        position::countable(st),
        st.peeked is None,
        st.comment == CommentMode::Outside,
        is_gap(st.settings.allow_comments, pieces),
        st.rest == gap_bytes(pieces) + tail,
        tail.len() > 0 ==> tail[0] != 0x0A,
        tail.len() == 0 ==> st.eof,
    ensures
        model::space_run(st) == model::space_run(next),
        position::travelled(st, next),
        next == (State { place: next.place, rest: tail, ..st }),
    decreases pieces.len(),
{
    if pieces.len() == 0 {
        assert(st.rest =~= tail);
        position::lemma_stay(st, st);
        st
    } else {
        let (mid, k) = lemma_gap_step(st, pieces, tail);
        let next = lemma_gap(mid, pieces.skip(k), tail);
        position::lemma_travel_on(st, mid, next);
        next
    }
}

/// Where a gap starts with _LF_, that is its first piece.
proof fn lemma_gap_start(pieces: Seq<Gap>, tail: Seq<u8>)
    requires
        tail.len() > 0 ==> tail[0] != 0x0A,
        (gap_bytes(pieces) + tail).len() > 0,
        (gap_bytes(pieces) + tail)[0] == 0x0A,
    ensures
        pieces.len() > 0,
        pieces[0] == Gap::Blank(0x0A),
{
    let s = gap_bytes(pieces) + tail;
    if pieces.len() == 0 {
        assert(s =~= tail);
    } else {
        assert(s[0] == piece_bytes(pieces[0])[0]);
    }
}

/// Skipping whitespace and comments in front of a token leads directly to the token: whatever
/// whitespace and comments there are, the first byte behind them is found, and nothing but them
/// is consumed. This needs one byte which is neither whitespace nor starts a comment, and no end
/// of the input.
pub proof fn law_gap_is_skipped(st: State, pieces: Seq<Gap>, tail: Seq<u8>)
    requires
        position::countable(st),
        st.peeked is None,
        st.comment == CommentMode::Outside,
        is_gap(st.settings.allow_comments, pieces),
        st.rest == gap_bytes(pieces) + tail,
        tail.len() > 0,
        !is_blank(tail[0]),
        tail[0] != 0x2F,
    ensures
        model::space_run(st) == Outcome::Ready(Some(tail[0]), further(st, tail)),
{
    let next = lemma_gap(st, pieces, tail);
    assert(next =~= further(st, tail));
}

/// At the end of the input, behind any whitespace and comments, the end is found. The last
/// comment may end with the input instead of its line.
#[verifier::spinoff_prover]
#[verifier::rlimit(40)]
pub proof fn law_gap_at_the_end(st: State, pieces: Seq<Gap>, last: Option<Seq<u8>>)
    requires
        position::countable(st),
        st.peeked is None,
        st.comment == CommentMode::Outside,
        st.eof,
        is_gap(st.settings.allow_comments, pieces),
        last matches Some(c) ==> st.settings.allow_comments && is_comment_text(c)
            && !holds_line_end(c),
        st.rest == gap_bytes(pieces) + match last {
            Some(c) => seq![0x2Fu8, 0x2Fu8] + c,
            None => Seq::empty(),
        },
    ensures
        model::space_run(st) == Outcome::<Option<u8>>::Ready(None, further(st, Seq::empty())),
        model::trailing_run(st) == Outcome::Ready((), further(st, Seq::empty())),
{
    let tail = match last {
        Some(c) => seq![0x2Fu8, 0x2Fu8] + c,
        None => Seq::empty(),
    };
    let next = lemma_gap(st, pieces, tail);
    match last {
        None => {
            assert(next =~= further(st, tail));
        },
        Some(c) => {
            assert(next.rest[0] == 0x2F && next.rest[1] == 0x2F);
            let mid = lemma_move(next, 2);
            assert(mid.rest =~= c + Seq::<u8>::empty());
            let end = lemma_line_text(mid, c, Seq::empty());
            position::lemma_travel_on(next, mid, end);
            position::lemma_travel_on(st, next, end);
            assert(State { comment: CommentMode::Outside, ..end } =~= further(st, Seq::empty()));
        },
    }
}

/// A comment between `/*` and `*/` is skipped whatever follows it: skipping whitespace and
/// comments in front of it is the same as behind it.
pub proof fn law_block_comment(st: State, c: Seq<u8>, tail: Seq<u8>)
    requires
        position::countable(st),
        st.peeked is None,
        st.comment == CommentMode::Outside,
        st.settings.allow_comments,
        is_comment_text(c),
        !holds_close(c),
        st.rest == seq![0x2Fu8, 0x2Au8] + c + seq![0x2Au8, 0x2Fu8] + tail,
    ensures
        model::space_run(st) == model::space_run(further(st, tail)),
{
    assert(st.rest =~= piece_bytes(Gap::Block(c)) + tail);
    let next = lemma_comment(st, Gap::Block(c), tail);
    assert(next =~= further(st, tail));
}

/// A comment which starts with `//` is skipped up to the end of its line, whatever follows.
pub proof fn law_line_comment(st: State, c: Seq<u8>, end: u8, tail: Seq<u8>)
    requires
        position::countable(st),
        st.peeked is None,
        st.comment == CommentMode::Outside,
        st.settings.allow_comments,
        is_comment_text(c),
        !holds_line_end(c),
        end == 0x0A || end == 0x0D,
        st.rest == seq![0x2Fu8, 0x2Fu8] + c + seq![end] + tail,
    ensures
        model::space_run(st) == model::space_run(further(st, seq![end] + tail)),
{
    assert(st.rest =~= piece_bytes(Gap::Line(c, end)) + tail);
    let next = lemma_comment(st, Gap::Line(c, end), tail);
    assert(next =~= further(st, seq![end] + tail));
}

/// Whether the outcome is the syntax error of the given kind where the input `at` starts.
pub open spec fn fails_at<T>(o: Outcome<T>, st: State, kind: SyntaxErrorKind, at: Seq<u8>) -> bool {
    o matches Outcome::Failed(e, _) && e == (ErrorModel::Syntax {
        kind,
        location: further(st, at).position(),
    })
}

/// Where comments are not allowed, a `/` is answered with an error which says so.
pub proof fn law_comments_not_enabled(st: State, pieces: Seq<Gap>, tail: Seq<u8>)
    requires
        position::countable(st),
        st.peeked is None,
        st.comment == CommentMode::Outside,
        !st.settings.allow_comments,
        is_gap(false, pieces),
        st.rest == gap_bytes(pieces) + tail,
        tail.len() > 0,
        tail[0] == 0x2F,
    ensures
        fails_at(model::space_run(st), st, SyntaxErrorKind::CommentsNotEnabled, tail),
{
    let next = lemma_gap(st, pieces, tail);
    assert(next =~= further(st, tail));
    assert(next.place.forward(0, 0) == next.place);
}

/// Comments which are not what they have to be: a `/` which is followed by something else than
/// `/` and `*`, and a comment which is not closed. The error is reported behind the `/`, and at
/// the end of the input.
#[verifier::spinoff_prover]
#[verifier::rlimit(40)]
pub proof fn law_malformed_comments(st: State, pieces: Seq<Gap>, c: Seq<u8>)
    requires
        position::countable(st),
        st.peeked is None,
        st.comment == CommentMode::Outside,
        st.settings.allow_comments,
        is_gap(true, pieces),
    ensures
        st.rest == gap_bytes(pieces) + (seq![0x2Fu8] + c) && (c.len() > 0 || st.eof) && (c.len() > 0
            ==> c[0] != 0x2F && c[0] != 0x2A) ==> fails_at(
            model::space_run(st),
            st,
            SyntaxErrorKind::IncompleteComment,
            c,
        ),
        st.rest == gap_bytes(pieces) + (seq![0x2Fu8, 0x2Au8] + c) && st.eof && is_comment_text(c)
            && !holds_close(c) ==> fails_at(
            model::space_run(st),
            st,
            SyntaxErrorKind::BlockCommentNotClosed,
            Seq::empty(),
        ),
{
    if st.rest == gap_bytes(pieces) + (seq![0x2Fu8] + c) && (c.len() > 0 || st.eof) && (c.len() > 0
        ==> c[0] != 0x2F && c[0] != 0x2A) {
        let tail = seq![0x2Fu8] + c;
        let next = lemma_gap(st, pieces, tail);
        assert(next.rest[0] == 0x2F);
        assert(c.len() > 0 ==> next.rest[1] == c[0]);
        assert(next.rest.skip(1) =~= c);
        lemma_one_on(st, next, c);
    }
    if st.rest == gap_bytes(pieces) + (seq![0x2Fu8, 0x2Au8] + c) && st.eof && is_comment_text(c)
        && !holds_close(c) {
        let tail = seq![0x2Fu8, 0x2Au8] + c;
        let next = lemma_gap(st, pieces, tail);
        assert(next.rest[0] == 0x2F && next.rest[1] == 0x2A);
        let mid = lemma_move(next, 2);
        assert(mid.rest =~= c);
        position::lemma_travel_on(st, next, mid);
        lemma_open_block(st, mid, c);
    }
}

/// The place behind one more plain character.
proof fn lemma_one_on(st: State, next: State, c: Seq<u8>)
    requires
        position::travelled(st, next),
        position::countable(st),
        st.peeked is None,
        next == (State { place: next.place, rest: next.rest, ..st }),
        next.rest.len() > 0,
        0x20 <= next.rest[0] < 0x80,
        c == next.rest.skip(1),
    ensures
        next.place.forward(1, 1) == further(st, c).place,
{
    let end = State { place: next.place.forward(1, 1), rest: c, ..st };
    assert(position::plain(position::unconsumed(next)[0]));
    position::lemma_travel_plain(next, end, 1);
    position::lemma_travel_on(st, next, end);
}

/// The end of the input is reached inside a block comment.
#[verifier::spinoff_prover]
#[verifier::rlimit(40)]
proof fn lemma_open_block(start: State, st: State, c: Seq<u8>)
    requires
        position::countable(start),
        start.peeked is None,
        position::travelled(start, st),
        st == (State {
            place: st.place,
            rest: st.rest,
            comment: CommentMode::Block,
            ..start
        }),
        st.eof,
        is_comment_text(c),
        !holds_close(c),
        st.rest == c,
    ensures
        fails_at(
            model::space_run(st),
            start,
            SyntaxErrorKind::BlockCommentNotClosed,
            Seq::empty(),
        ),
    decreases c.len(),
{
    if c.len() == 0 {
        assert(st.place.forward(0, 0) == st.place);
        assert(st.rest =~= Seq::<u8>::empty());
    } else {
        let n = lemma_comment_tail(c);
        if c[0] >= 0x80 {
            lemma_multibyte_head(c, Seq::empty(), st.eof);
            assert(c + Seq::<u8>::empty() =~= c);
        }
        if c[0] == 0x2A && c.len() > 1 {
            assert(c[1] != 0x2F) by {
                if c[1] == 0x2F {
                    assert(c[1 - 1] == 0x2A);
                }
            }
        }
        if c[0] == 0x2A && c.len() == 1 {
            assert(c.skip(1) =~= Seq::<u8>::empty());
            let end = State { place: st.place.forward(1, 1), rest: Seq::empty(), ..st };
            assert(position::plain(position::unconsumed(st)[0]));
            position::lemma_travel_plain(st, end, 1);
            position::lemma_travel_on(start, st, end);
        } else if c[0] == 0x0D && c.len() > 1 && c[1] == 0x0A {
            let m = lemma_comment_tail(c.skip(1));
            assert(c.skip(1)[0] == c[1]);
            assert(c.skip(1).skip(1) =~= c.skip(2));
            let mid = lemma_move(st, 2);
            position::lemma_travel_on(start, st, mid);
            lemma_open_block(start, mid, c.skip(2));
        } else {
            let mid = lemma_move(st, n);
            position::lemma_travel_on(start, st, mid);
            lemma_open_block(start, mid, c.skip(n));
        }
    }
}

/// A control character other than tab, _LF_ and _CR_ may not stand in a comment, and neither may
/// bytes which are no UTF-8.
#[verifier::spinoff_prover]
#[verifier::rlimit(40)]
pub proof fn law_comment_characters(
    st: State,
    pieces: Seq<Gap>,
    second: u8,
    c: Seq<u8>,
    bad: Seq<u8>,
)
    requires
        position::countable(st),
        st.peeked is None,
        st.comment == CommentMode::Outside,
        st.settings.allow_comments,
        is_gap(true, pieces),
        second == 0x2A && !holds_close(c) || second == 0x2F && !holds_line_end(c),
        is_comment_text(c),
        bad.len() > 0,
        st.rest == gap_bytes(pieces) + (seq![0x2Fu8, second] + c + bad),
    ensures
        bad[0] < 0x20 && bad[0] != 0x09 && bad[0] != 0x0A && bad[0] != 0x0D ==> fails_at(
            model::space_run(st),
            st,
            SyntaxErrorKind::NotEscapedControlCharacter,
            bad,
        ),
        bad.len() >= 4 && bad[0] >= 0x80 && !valid_first_scalar(bad) ==> (model::space_run(
            st,
        ) matches Outcome::Failed(e, _) && e is Io && e->Io_kind == ErrorKind::InvalidData
            && e->Io_location == further(st, bad).position()),
{
    let tail = seq![0x2Fu8, second] + c + bad;
    let start = lemma_gap(st, pieces, tail);
    assert(start.rest[0] == 0x2F && start.rest[1] == second);
    let mid = lemma_move(start, 2);
    position::lemma_travel_on(st, start, mid);
    assert(mid.rest =~= c + bad);
    if (bad[0] < 0x20 && bad[0] != 0x09 && bad[0] != 0x0A && bad[0] != 0x0D) || bad[0] >= 0x80 {
        let next = if second == 0x2A {
            lemma_block_text(mid, c, bad)
        } else {
            lemma_line_text(mid, c, bad)
        };
        position::lemma_travel_on(st, mid, next);
        assert(next.place.forward(0, 0) == next.place);
        assert(next.place == further(st, bad).place);
    }
}

} // verus!
