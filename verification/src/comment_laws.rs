//! What reading comments gives back of comments that were written.
use vstd::prelude::*;
use crate::comment::{self, CommentLine, CommentMode, CommentView};
use crate::text;

verus! {

/// A text in which no comment opens holds none.
pub proof fn law_no_comment(s: Seq<char>)
    requires
        forall|i: int| !comment::opens_at(s, i),
    ensures
        comment::gap(s) == Some(Seq::<CommentView>::empty()),
{
    comment::lemma_comment_start(s);
    comment::lemma_no_comment(s);
}

/// A text without slashes has no comment lines.
pub proof fn law_read_none(s: Seq<char>)
    requires
        !s.contains('/'),
    ensures
        comment::comment_lines(s) == Some(Seq::<CommentLine>::empty()),
{
    assert forall|i: int| !comment::opens_at(s, i) by {
        if 0 <= i < s.len() {
            assert(s.contains(s[i]));
        }
    }
    comment::lemma_comment_start(s);
    comment::lemma_no_comment(s);
}

/// The first comment opens behind a text without slashes.
pub proof fn lemma_start_behind(before: Seq<char>, rest: Seq<char>)
    requires
        !before.contains('/'),
        comment::opens_at(rest, 0),
    ensures
        comment::comment_start(before + rest) == before.len(),
{
    let s = before + rest;
    assert forall|i: int| 0 <= i < before.len() implies !comment::opens_at(s, i) by {
        assert(s[i] == before[i]);
        assert(before.contains(before[i]));
    }
    assert(comment::opens_at(s, before.len() as int));
    comment::lemma_comment_start_is(s, before.len() as int);
}

/// What stands behind the two slashes of a line comment, for its mode.
pub open spec fn sign(mode: CommentMode) -> Seq<char> {
    match mode {
        CommentMode::Normal => Seq::empty(),
        CommentMode::DocOuter => seq!['/'],
        CommentMode::DocInner => seq!['!'],
    }
}

/// A line comment, with the end of its line.
pub open spec fn line_comment(mode: CommentMode, line: Seq<char>) -> Seq<char> {
    seq!['/', '/'] + sign(mode) + line + seq!['\n']
}

/// `line` can stand in a line comment: it holds no line feed, and does not start
/// with what would give an ordinary comment another mode.
pub open spec fn is_line(mode: CommentMode, line: Seq<char>) -> bool {
    &&& !line.contains('\n')
    &&& mode == CommentMode::Normal && line.len() > 0 ==> line[0] != '/' && line[0] != '!'
}

/// A line comment is read back as it was written, and what is behind it is read
/// on. Text without slashes before it is passed over.
pub proof fn law_read_line(before: Seq<char>, mode: CommentMode, line: Seq<char>, rest: Seq<char>)
    requires
        !before.contains('/'),
        is_line(mode, line),
    ensures
        comment::comment_lines(before + line_comment(mode, line) + rest) == comment::prepend(
            seq![CommentLine { mode, line }],
            comment::comment_lines(rest),
        ),
{
    let s = before + line_comment(mode, line) + rest;
    let tail = line_comment(mode, line) + rest;
    let k = before.len() as int;
    assert(s =~= before + tail);
    lemma_start_behind(before, tail);
    let inner = s.skip(k + 2);
    assert(inner =~= sign(mode) + line + seq!['\n'] + rest);
    let body = line + seq!['\n'] + rest;
    assert(comment::line_body(inner) =~= body);
    assert forall|i: int| 0 <= i < line.len() implies body[i] != '\n' by {
        assert(line.contains(line[i]));
    }
    text::lemma_find_is(body, '\n', line.len() as int);
    comment::lemma_line_comment(s);
    assert(body.take(line.len() as int) =~= line);
    assert(body.skip(line.len() as int + 1) =~= rest);
}

/// Lines written as line comments of one mode, each behind `before`.
pub open spec fn line_comments(before: Seq<char>, mode: CommentMode, lines: Seq<Seq<char>>) -> Seq<
    char,
>
    decreases lines.len(),
{
    if lines.len() == 0 {
        Seq::empty()
    } else {
        before + line_comment(mode, lines[0]) + line_comments(before, mode, lines.drop_first())
    }
}

/// The lines with their mode.
pub open spec fn moded(mode: CommentMode, lines: Seq<Seq<char>>) -> Seq<CommentLine> {
    lines.map_values(|line: Seq<char>| CommentLine { mode, line })
}

proof fn lemma_read_lines(
    before: Seq<char>,
    mode: CommentMode,
    lines: Seq<Seq<char>>,
    behind: Seq<char>,
)
    requires
        !before.contains('/'),
        !behind.contains('/'),
        forall|i: int| 0 <= i < lines.len() ==> is_line(mode, #[trigger] lines[i]),
    ensures
        comment::comment_lines(line_comments(before, mode, lines) + behind) == Some(
            moded(mode, lines),
        ),
    decreases lines.len(),
{
    let written = line_comments(before, mode, lines);
    if lines.len() == 0 {
        assert forall|i: int| !comment::opens_at(behind, i) by {
            if 0 <= i < behind.len() {
                assert(behind.contains(behind[i]));
            }
        }
        comment::lemma_comment_start(behind);
        comment::lemma_no_comment(behind);
        assert(written + behind =~= behind);
        assert(moded(mode, lines) =~= Seq::<CommentLine>::empty());
    } else {
        let rest = lines.drop_first();
        assert forall|i: int| 0 <= i < rest.len() implies is_line(mode, #[trigger] rest[i]) by {
            assert(rest[i] == lines[i + 1]);
        }
        let tail = line_comments(before, mode, rest) + behind;
        lemma_read_lines(before, mode, rest, behind);
        assert(is_line(mode, lines[0]));
        law_read_line(before, mode, lines[0], tail);
        assert(written + behind =~= before + line_comment(mode, lines[0]) + tail);
        assert(seq![CommentLine { mode, line: lines[0] }] + moded(mode, rest) =~= moded(mode, lines));
    }
}

/// Lines of one mode form one comment.
pub proof fn lemma_one_comment(mode: CommentMode, lines: Seq<Seq<char>>)
    requires
        lines.len() > 0,
    ensures
        comment::comments_of(moded(mode, lines)) == seq![
            CommentView { mode, lines: comment::join(lines) },
        ],
    decreases lines.len(),
{
    let all = moded(mode, lines);
    assert(all.drop_last() =~= moded(mode, lines.drop_last()));
    if lines.len() == 1 {
        assert(comment::comments_of(all.drop_last()) =~= Seq::<CommentView>::empty());
        assert(comment::comments_of(all) =~= seq![CommentView { mode, lines: lines[0] }]);
    } else {
        lemma_one_comment(mode, lines.drop_last());
        assert(comment::comments_of(all) =~= seq![CommentView { mode, lines: comment::join(lines) }]);
    }
}

/// Lines that are written as line comments of one mode, one below the other, are
/// read back as one comment of that mode with these lines. What stands before each
/// and behind the last does not matter, if it holds no slash.
pub proof fn law_read_comment(
    before: Seq<char>,
    mode: CommentMode,
    lines: Seq<Seq<char>>,
    behind: Seq<char>,
)
    requires
        lines.len() > 0,
        !before.contains('/'),
        !behind.contains('/'),
        forall|i: int| 0 <= i < lines.len() ==> is_line(mode, #[trigger] lines[i]),
    ensures
        comment::gap(line_comments(before, mode, lines) + behind) == Some(
            seq![CommentView { mode, lines: comment::join(lines) }],
        ),
{
    lemma_read_lines(before, mode, lines, behind);
    lemma_one_comment(mode, lines);
}

/// No delimiter of a block comment stands in `s`, nor one that the end of `s` and
/// `next` form, the first character of the delimiter behind it.
pub open spec fn is_plain(s: Seq<char>, next: char) -> bool {
    &&& forall|i: int|
        0 <= i && i + 1 < s.len() ==> !((#[trigger] s[i]) == '*' && s[i + 1] == '/') && !(s[i] == '/'
            && s[i + 1] == '*')
    &&& s.len() > 0 && next == '*' ==> s.last() != '/'
    &&& s.len() > 0 && next == '/' ==> s.last() != '*'
}

/// The search for the end of a block comment passes over what holds no delimiter.
pub proof fn lemma_plain_passed(s: Seq<char>, tail: Seq<char>, depth: int)
    requires
        tail.len() >= 2,
        tail[0] == '*' && tail[1] == '/' || tail[0] == '/' && tail[1] == '*',
        is_plain(s, tail[0]),
    ensures
        comment::block_end(s + tail, depth) == comment::after(
            s.len(),
            comment::block_end(tail, depth),
        ),
    decreases s.len(),
{
    let all = s + tail;
    if s.len() == 0 {
        assert(all =~= tail);
    } else {
        let rest = s.drop_first();
        assert forall|i: int| 0 <= i && i + 1 < rest.len() implies !((#[trigger] rest[i]) == '*'
            && rest[i + 1] == '/') && !(rest[i] == '/' && rest[i + 1] == '*') by {
            assert(rest[i] == s[i + 1]);
            assert(rest[i + 1] == s[i + 2]);
        }
        assert(rest.len() > 0 ==> rest.last() == s.last());
        lemma_plain_passed(rest, tail, depth);
        assert(all.skip(1) =~= rest + tail);
        assert(s[0] == all[0]);
        assert(s.len() == 1 ==> s.last() == s[0]);
        assert(all[0] == '*' && all[1] == '/' ==> false);
        assert(all[0] == '/' && all[1] == '*' ==> false);
    }
}

/// A block comment.
pub open spec fn block_comment(body: Seq<char>) -> Seq<char> {
    seq!['/', '*'] + body + seq!['*', '/']
}

/// The lines of a block comment, once its end has been found.
pub proof fn lemma_read_body(before: Seq<char>, body: Seq<char>, rest: Seq<char>)
    requires
        !before.contains('/'),
        comment::block_end(body + seq!['*', '/'] + rest, 1) == Some(body.len()),
    ensures
        comment::comment_lines(before + block_comment(body) + rest) == comment::prepend(
            comment::block_lines(body),
            comment::comment_lines(rest),
        ),
{
    let s = before + block_comment(body) + rest;
    let tail = block_comment(body) + rest;
    let k = before.len() as int;
    assert(s =~= before + tail);
    lemma_start_behind(before, tail);
    let inner = body + seq!['*', '/'] + rest;
    assert(s.skip(k + 2) =~= inner);
    comment::lemma_block_comment(s);
    assert(inner.take(body.len() as int) =~= body);
    assert(inner.skip(body.len() as int + 2) =~= rest);
}

/// A block comment is read back line by line, each line without its margin, and
/// what is behind the comment is read on.
pub proof fn law_read_block(before: Seq<char>, body: Seq<char>, rest: Seq<char>)
    requires
        !before.contains('/'),
        is_plain(body, '*'),
    ensures
        comment::comment_lines(before + block_comment(body) + rest) == comment::prepend(
            comment::block_lines(body),
            comment::comment_lines(rest),
        ),
{
    let tail = seq!['*', '/'] + rest;
    lemma_plain_passed(body, tail, 1);
    assert(body + seq!['*', '/'] + rest =~= body + tail);
    lemma_read_body(before, body, rest);
}

/// A block comment within a block comment is part of it.
pub proof fn law_read_nested(
    before: Seq<char>,
    first: Seq<char>,
    inner: Seq<char>,
    last: Seq<char>,
    rest: Seq<char>,
)
    requires
        !before.contains('/'),
        is_plain(first, '/'),
        is_plain(inner, '*'),
        is_plain(last, '*'),
    ensures
        comment::comment_lines(
            before + block_comment(first + block_comment(inner) + last) + rest,
        ) == comment::prepend(
            comment::block_lines(first + block_comment(inner) + last),
            comment::comment_lines(rest),
        ),
{
    let body = first + block_comment(inner) + last;
    let c = seq!['*', '/'] + rest;
    let b = seq!['*', '/'] + last + c;
    let a = seq!['/', '*'] + inner + b;
    lemma_plain_passed(first, a, 1);
    assert(a.skip(2) =~= inner + b);
    lemma_plain_passed(inner, b, 2);
    assert(b.skip(2) =~= last + c);
    lemma_plain_passed(last, c, 1);
    assert(comment::block_end(c, 1) == Some(0nat));
    assert(comment::block_end(b, 2) == comment::after(2, comment::block_end(last + c, 1)));
    assert(comment::block_end(a, 1) == comment::after(2, comment::block_end(inner + b, 2)));
    assert(body + seq!['*', '/'] + rest =~= first + a);
    lemma_read_body(before, body, rest);
}

/// What can stand between two tokens.
pub enum Piece {
    /// Text without slashes.
    Plain(Seq<char>),
    /// A line comment, with the end of its line.
    Line { mode: CommentMode, line: Seq<char> },
    /// A block comment, which may hold others.
    Block(Seq<char>),
}

/// How a piece is written.
pub open spec fn piece_text(piece: Piece) -> Seq<char> {
    match piece {
        Piece::Plain(t) => t,
        Piece::Line { mode, line } => line_comment(mode, line),
        Piece::Block(body) => block_comment(body),
    }
}

/// The piece is what it says: its comment ends where the piece does.
pub open spec fn is_piece(piece: Piece) -> bool {
    match piece {
        Piece::Plain(t) => !t.contains('/'),
        Piece::Line { mode, line } => is_line(mode, line),
        Piece::Block(body) => comment::block_end(body + seq!['*', '/'], 1) == Some(body.len()),
    }
}

/// The comment lines of a piece.
pub open spec fn piece_lines(piece: Piece) -> Seq<CommentLine> {
    match piece {
        Piece::Plain(_) => Seq::empty(),
        Piece::Line { mode, line } => seq![CommentLine { mode, line }],
        Piece::Block(body) => comment::block_lines(body),
    }
}

/// Pieces one behind the other.
pub open spec fn pieces_text(pieces: Seq<Piece>) -> Seq<char>
    decreases pieces.len(),
{
    if pieces.len() == 0 {
        Seq::empty()
    } else {
        piece_text(pieces[0]) + pieces_text(pieces.drop_first())
    }
}

/// The comment lines of pieces.
pub open spec fn pieces_lines(pieces: Seq<Piece>) -> Seq<CommentLine>
    decreases pieces.len(),
{
    if pieces.len() == 0 {
        Seq::empty()
    } else {
        piece_lines(pieces[0]) + pieces_lines(pieces.drop_first())
    }
}

/// Text without slashes is passed over.
proof fn lemma_plain_read(t: Seq<char>, rest: Seq<char>)
    requires
        !t.contains('/'),
    ensures
        comment::comment_lines(t + rest) == comment::comment_lines(rest),
{
    reveal(comment::comment_lines);
    let s = t + rest;
    let k = comment::comment_start(rest) as int;
    comment::lemma_comment_start(rest);
    assert forall|i: int| 0 <= i < t.len() + k implies !comment::opens_at(s, i) by {
        if i < t.len() {
            assert(t.contains(t[i]));
        } else {
            assert(!comment::opens_at(rest, i - t.len()));
        }
    }
    if k < rest.len() {
        assert(comment::opens_at(rest, k));
        assert(comment::opens_at(s, t.len() + k));
        assert(s.skip(t.len() + k + 2) =~= rest.skip(k + 2));
    }
    comment::lemma_comment_start_is(s, t.len() + k);
}

/// The end of a block comment does not depend on what is behind it.
proof fn lemma_block_end_more(s: Seq<char>, more: Seq<char>, depth: int)
    ensures
        comment::block_end(s, depth) matches Some(e) ==> comment::block_end(s + more, depth) == Some(
            e,
        ),
    decreases s.len(),
{
    if s.len() >= 2 {
        let all = s + more;
        assert(all.skip(2) =~= s.skip(2) + more);
        assert(all.skip(1) =~= s.skip(1) + more);
        lemma_block_end_more(s.skip(2), more, depth - 1);
        lemma_block_end_more(s.skip(2), more, depth + 1);
        lemma_block_end_more(s.skip(1), more, depth);
    }
}

/// A text of complete comments, with text without slashes between them, can be
/// read, and its comment lines are those of its comments, in order.
pub proof fn law_read_pieces(pieces: Seq<Piece>)
    requires
        forall|i: int| 0 <= i < pieces.len() ==> is_piece(#[trigger] pieces[i]),
    ensures
        comment::comment_lines(pieces_text(pieces)) == Some(pieces_lines(pieces)),
    decreases pieces.len(),
{
    if pieces.len() == 0 {
        comment::lemma_no_comment(Seq::empty());
    } else {
        let rest = pieces.drop_first();
        assert forall|i: int| 0 <= i < rest.len() implies is_piece(#[trigger] rest[i]) by {
            assert(rest[i] == pieces[i + 1]);
        }
        law_read_pieces(rest);
        let tail = pieces_text(rest);
        let none = Seq::<char>::empty();
        assert(is_piece(pieces[0]));
        match pieces[0] {
            Piece::Plain(t) => {
                lemma_plain_read(t, tail);
                assert(Seq::<CommentLine>::empty() + pieces_lines(rest) =~= pieces_lines(rest));
            },
            Piece::Line { mode, line } => {
                law_read_line(none, mode, line, tail);
                assert(none + line_comment(mode, line) + tail =~= pieces_text(pieces));
            },
            Piece::Block(body) => {
                lemma_block_end_more(body + seq!['*', '/'], tail, 1);
                lemma_read_body(none, body, tail);
                assert(none + block_comment(body) + tail =~= pieces_text(pieces));
            },
        }
    }
}

/// The texts of comments.
pub open spec fn comment_texts(comments: Seq<CommentView>) -> Seq<Seq<char>> {
    comments.map_values(|c: CommentView| c.lines)
}

/// The texts of comment lines.
pub open spec fn line_texts(lines: Seq<CommentLine>) -> Seq<Seq<char>> {
    lines.map_values(|l: CommentLine| l.line)
}

proof fn lemma_join_last(lines: Seq<Seq<char>>, more: Seq<char>)
    requires
        lines.len() > 0,
    ensures
        comment::join(lines.drop_last().push(lines.last().push('\n') + more)) == comment::join(
            lines,
        ).push('\n') + more,
{
    let joined = lines.last().push('\n') + more;
    let all = lines.drop_last().push(joined);
    assert(all.drop_last() =~= lines.drop_last());
    assert(comment::join(all) =~= comment::join(lines).push('\n') + more);
}

/// The lines form comments without loss: the comments hold these lines, in order,
/// and there are comments where there are lines.
pub proof fn law_no_line_lost(lines: Seq<CommentLine>)
    ensures
        comment::join(comment_texts(comment::comments_of(lines))) == comment::join(
            line_texts(lines),
        ),
        comment::comments_of(lines).len() == 0 <==> lines.len() == 0,
    decreases lines.len(),
{
    let comments = comment::comments_of(lines);
    if lines.len() == 0 {
        assert(comment_texts(comments) =~= line_texts(lines));
    } else {
        let some = lines.drop_last();
        let last = lines.last();
        let before = comment::comments_of(some);
        law_no_line_lost(some);
        assert(line_texts(lines).drop_last() =~= line_texts(some));
        if lines.len() > 1 && some.last().mode == last.mode {
            lemma_join_last(comment_texts(before), last.line);
            assert(comment_texts(comments) =~= comment_texts(before).drop_last().push(
                comment_texts(before).last().push('\n') + last.line,
            ));
        } else {
            assert(comment_texts(comments).drop_last() =~= comment_texts(before));
        }
    }
}

/// The comment behind the one at `i` is of another mode.
pub open spec fn changes_at(comments: Seq<CommentView>, i: int) -> bool {
    comments[i].mode != comments[i + 1].mode
}

/// Two comments in a row are never of the same mode, and the last is of the mode
/// of the last line.
pub proof fn law_modes_alternate(lines: Seq<CommentLine>)
    ensures
        lines.len() > 0 ==> comment::comments_of(lines).len() > 0 && comment::comments_of(
            lines,
        ).last().mode == lines.last().mode,
        forall|i: int|
            0 <= i < comment::comments_of(lines).len() - 1 ==> #[trigger] changes_at(
                comment::comments_of(lines),
                i,
            ),
    decreases lines.len(),
{
    if lines.len() > 0 {
        let before = comment::comments_of(lines.drop_last());
        let comments = comment::comments_of(lines);
        law_modes_alternate(lines.drop_last());
        assert forall|i: int| 0 <= i < comments.len() - 1 implies #[trigger] changes_at(
            comments,
            i,
        ) by {
            if i < before.len() - 1 {
                assert(changes_at(before, i));
            }
        }
    }
}

} // verus!
