//! Comments are read as they were written, character by character.
use vstd::prelude::*;
use crate::comment::{self, CommentLine, CommentMode, CommentView};
use crate::comment_laws;
use crate::text;
use crate::text_laws::{self, EndedLine};

verus! {

/// A comment line in front of what is read behind it, where that can be read.
pub open spec fn line_first(mode: CommentMode, line: Seq<char>, rest: Seq<char>) -> Option<
    Seq<CommentLine>,
> {
    match comment::comment_lines(rest) {
        Some(lines) => Some(seq![CommentLine { mode, line }] + lines),
        None => None,
    }
}

/// Two slashes and a text up to the end of the line are an ordinary comment with
/// that text. Text without slashes before it is passed over.
pub proof fn law_normal_line(before: Seq<char>, line: Seq<char>, rest: Seq<char>)
    requires
        !before.contains('/'),
        !line.contains('\n'),
        line.len() > 0 ==> line[0] != '/' && line[0] != '!',
    ensures
        comment::comment_lines(before + seq!['/', '/'] + line + seq!['\n'] + rest) == line_first(
            CommentMode::Normal,
            line,
            rest,
        ),
{
    comment_laws::law_read_line(before, CommentMode::Normal, line, rest);
    assert(before + comment_laws::line_comment(CommentMode::Normal, line) + rest =~= before + seq![
        '/',
        '/',
    ] + line + seq!['\n'] + rest);
}

/// Three slashes and a text up to the end of the line document what follows.
pub proof fn law_outer_line(before: Seq<char>, line: Seq<char>, rest: Seq<char>)
    requires
        !before.contains('/'),
        !line.contains('\n'),
    ensures
        comment::comment_lines(before + seq!['/', '/', '/'] + line + seq!['\n'] + rest)
            == line_first(CommentMode::DocOuter, line, rest),
{
    comment_laws::law_read_line(before, CommentMode::DocOuter, line, rest);
    assert(before + comment_laws::line_comment(CommentMode::DocOuter, line) + rest =~= before
        + seq!['/', '/', '/'] + line + seq!['\n'] + rest);
}

/// Two slashes, an exclamation mark and a text up to the end of the line document
/// what encloses them.
pub proof fn law_inner_line(before: Seq<char>, line: Seq<char>, rest: Seq<char>)
    requires
        !before.contains('/'),
        !line.contains('\n'),
    ensures
        comment::comment_lines(before + seq!['/', '/', '!'] + line + seq!['\n'] + rest)
            == line_first(CommentMode::DocInner, line, rest),
{
    comment_laws::law_read_line(before, CommentMode::DocInner, line, rest);
    assert(before + comment_laws::line_comment(CommentMode::DocInner, line) + rest =~= before
        + seq!['/', '/', '!'] + line + seq!['\n'] + rest);
}

/// A line comment at the end of the text ends with the text, unless nothing is
/// behind its slashes: that cannot be read.
pub proof fn law_last_line(before: Seq<char>, line: Seq<char>)
    requires
        !before.contains('/'),
        !line.contains('\n'),
        line.len() > 0 ==> line[0] != '/' && line[0] != '!',
    ensures
        comment::comment_lines(before + seq!['/', '/'] + line) == (if line.len() == 0 {
            None
        } else {
            Some(seq![CommentLine { mode: CommentMode::Normal, line }])
        }),
{
    let s = before + seq!['/', '/'] + line;
    let tail = seq!['/', '/'] + line;
    assert(s =~= before + tail);
    comment_laws::lemma_start_behind(before, tail);
    assert(s.skip(before.len() as int + 2) =~= line);
    assert(comment::line_body(line) =~= line);
    assert forall|i: int| 0 <= i < line.len() implies line[i] != '\n' by {
        assert(line.contains(line[i]));
    }
    text::lemma_find_is(line, '\n', line.len() as int);
    comment::lemma_line_comment(s);
    assert(line.take(line.len() as int) =~= line);
}

/// A doc comment at the end of the text ends with the text, in the same way.
pub proof fn law_last_doc_line(before: Seq<char>, outer: bool, line: Seq<char>)
    requires
        !before.contains('/'),
        !line.contains('\n'),
    ensures
        comment::comment_lines(
            before + (if outer {
                seq!['/', '/', '/']
            } else {
                seq!['/', '/', '!']
            }) + line,
        ) == (if line.len() == 0 {
            None
        } else if outer {
            Some(seq![CommentLine { mode: CommentMode::DocOuter, line }])
        } else {
            Some(seq![CommentLine { mode: CommentMode::DocInner, line }])
        }),
{
    let open = if outer {
        seq!['/', '/', '/']
    } else {
        seq!['/', '/', '!']
    };
    let s = before + open + line;
    let tail = open + line;
    assert(s =~= before + tail);
    comment_laws::lemma_start_behind(before, tail);
    let behind = s.skip(before.len() as int + 2);
    assert(behind =~= seq![open[2]] + line);
    assert(comment::line_body(behind) =~= line);
    assert forall|i: int| 0 <= i < line.len() implies line[i] != '\n' by {
        assert(line.contains(line[i]));
    }
    text::lemma_find_is(line, '\n', line.len() as int);
    comment::lemma_line_comment(s);
    assert(line.take(line.len() as int) =~= line);
}

/// A line of a block comment: white space, a margin or none, the line itself, and
/// white space again.
pub struct BlockLine {
    pub before: Seq<char>,
    pub margin: bool,
    pub line: Seq<char>,
    pub behind: Seq<char>,
}

/// A line of a block comment as it is written. The margin is an asterisk and a space.
pub open spec fn block_line_text(l: BlockLine) -> Seq<char> {
    l.before + (if l.margin {
        seq!['*', ' ']
    } else {
        Seq::empty()
    }) + l.line + l.behind
}

/// The lines of a block comment, with line feeds between them.
pub open spec fn block_text(lines: Seq<BlockLine>) -> Seq<char>
    decreases lines.len(),
{
    if lines.len() == 0 {
        Seq::empty()
    } else if lines.len() == 1 {
        block_line_text(lines[0])
    } else {
        block_line_text(lines[0]) + seq!['\n'] + block_text(lines.drop_first())
    }
}

/// The line is what it says: white space around it is no part of it, nor is a
/// margin. A margin has something behind it, which may start with white space.
pub open spec fn is_block_line(l: BlockLine) -> bool {
    &&& text_laws::is_pad(l.before)
    &&& text_laws::is_pad(l.behind)
    &&& !l.line.contains('\n')
    &&& l.line.len() > 0 ==> !text::white_space(l.line[l.line.len() - 1])
    &&& l.margin ==> l.line.len() > 0
    &&& !l.margin && l.line.len() > 0 ==> !text::white_space(l.line[0])
    &&& !l.margin && l.line.len() >= 2 ==> !(l.line[0] == '*' && l.line[1] == ' ')
}

/// White space and a margin are taken off.
proof fn lemma_margin(l: BlockLine, behind: Seq<char>, before: Seq<char>)
    requires
        is_block_line(l),
        text_laws::is_pad(behind),
        text_laws::is_pad(before),
    ensures
        comment::strip_margin(block_line_text(BlockLine { before, behind, ..l })) == l.line,
{
    let core = (if l.margin {
        seq!['*', ' ']
    } else {
        Seq::empty()
    }) + l.line;
    let s = block_line_text(BlockLine { before, behind, ..l });
    assert(l.line.len() > 0 ==> core[core.len() - 1] == l.line[l.line.len() - 1]);
    if !l.margin {
        assert(core =~= l.line);
    }
    assert(text_laws::is_tight(core));
    text_laws::law_trim(before, core, behind);
    assert(s =~= before + core + behind);
    assert(l.margin ==> core.skip(2) =~= l.line);
}

proof fn lemma_block_line(l: BlockLine)
    requires
        is_block_line(l),
    ensures
        comment::strip_margin(block_line_text(l)) == l.line,
        comment::strip_margin(text::strip_carriage_return(block_line_text(l))) == l.line,
        !block_line_text(l).contains('\n'),
{
    let s = block_line_text(l);
    lemma_margin(l, l.behind, l.before);
    assert(BlockLine { before: l.before, behind: l.behind, ..l } == l);
    if s.len() > 0 && s.last() == '\r' {
        if l.behind.len() > 0 {
            lemma_margin(l, l.behind.drop_last(), l.before);
            assert(block_line_text(BlockLine { behind: l.behind.drop_last(), ..l }) =~= s.drop_last());
        } else {
            assert(l.line.len() == 0);
            lemma_margin(l, l.behind, l.before.drop_last());
            assert(block_line_text(BlockLine { before: l.before.drop_last(), ..l })
                =~= s.drop_last());
        }
    }
    assert forall|i: int| 0 <= i < s.len() implies s[i] != '\n' by {
        let m: int = if l.margin {
            2
        } else {
            0
        };
        if i < l.before.len() {
            assert(s[i] == l.before[i]);
        } else if i >= l.before.len() + m + l.line.len() {
            assert(s[i] == l.behind[i - l.before.len() - m - l.line.len()]);
        } else if i >= l.before.len() + m {
            assert(s[i] == l.line[i - l.before.len() - m]);
            assert(l.line.contains(l.line[i - l.before.len() - m]));
        }
    }
}

/// The lines of the text of a block comment, but for the last.
spec fn ended_lines(lines: Seq<BlockLine>) -> Seq<EndedLine> {
    lines.map_values(
        |l: BlockLine|
            {
                let s = block_line_text(l);
                EndedLine {
                    line: text::strip_carriage_return(s),
                    returned: s.len() > 0 && s.last() == '\r',
                }
            },
    )
}

proof fn lemma_block_text(lines: Seq<BlockLine>)
    requires
        lines.len() > 0,
    ensures
        block_text(lines) == text_laws::ended_text(ended_lines(lines.drop_last()))
            + block_line_text(lines.last()),
    decreases lines.len(),
{
    let some = lines.drop_last();
    if lines.len() > 1 {
        let rest = lines.drop_first();
        lemma_block_text(rest);
        assert(rest.drop_last() =~= some.drop_first());
        assert(ended_lines(some).drop_first() =~= ended_lines(some.drop_first()));
        let s = block_line_text(lines[0]);
        assert(text_laws::ended(ended_lines(some)[0]) =~= s + seq!['\n']);
        assert(block_text(lines) =~= text_laws::ended_text(ended_lines(some)) + block_line_text(
            lines.last(),
        ));
    } else {
        assert(some =~= Seq::<BlockLine>::empty());
        assert(ended_lines(some) =~= Seq::<EndedLine>::empty());
        assert(block_text(lines) =~= text_laws::ended_text(ended_lines(some)) + block_line_text(
            lines.last(),
        ));
    }
}

/// The comment lines of a block comment that holds `lines`, each of them Normal.
pub open spec fn normal_lines(lines: Seq<BlockLine>) -> Seq<CommentLine> {
    lines.map_values(|l: BlockLine| CommentLine { mode: CommentMode::Normal, line: l.line })
}

/// The lines of a block comment, by how they are written.
pub proof fn lemma_block_lines(lines: Seq<BlockLine>)
    requires
        lines.len() > 0,
        forall|i: int| 0 <= i < lines.len() ==> is_block_line(#[trigger] lines[i]),
        block_line_text(lines.last()).len() > 0,
    ensures
        comment::block_lines(block_text(lines)) == normal_lines(lines),
{
    let some = lines.drop_last();
    let last = block_line_text(lines.last());
    let ended = ended_lines(some);
    lemma_block_text(lines);
    assert(is_block_line(lines[lines.len() - 1]));
    lemma_block_line(lines.last());
    assert forall|i: int| 0 <= i < last.len() implies (#[trigger] last[i]) != '\n' by {
        assert(last.contains(last[i]));
    }
    assert forall|i: int| 0 <= i < ended.len() implies text_laws::is_ended_line(
        #[trigger] ended[i],
    ) by {
        assert(is_block_line(lines[i]));
        lemma_block_line(lines[i]);
        let s = block_line_text(lines[i]);
        assert forall|j: int| 0 <= j < ended[i].line.len() implies (#[trigger] ended[i].line[j])
            != '\n' by {
            assert(s.contains(s[j]));
        }
    }
    text_laws::law_lines(ended, last);
    let read = text::text_lines(block_text(lines));
    assert(read.len() == lines.len());
    assert forall|i: int| 0 <= i < lines.len() implies comment::strip_margin(read[i])
        == lines[i].line by {
        assert(is_block_line(lines[i]));
        lemma_block_line(lines[i]);
        if i < some.len() {
            assert(read[i] == ended[i].line);
        } else {
            assert(read[i] == last);
        }
    }
    assert(comment::block_lines(block_text(lines)) =~= normal_lines(lines));
}

/// A block comment is read back as it was written: its lines, character by
/// character, without the white space around each and without its margin. They are
/// ordinary comment lines, and what is behind the comment is read on.
pub proof fn law_block_written(before: Seq<char>, lines: Seq<BlockLine>, rest: Seq<char>)
    requires
        !before.contains('/'),
        lines.len() > 0,
        forall|i: int| 0 <= i < lines.len() ==> is_block_line(#[trigger] lines[i]),
        block_line_text(lines.last()).len() > 0,
        forall|i: int|
            0 <= i && i + 1 < block_text(lines).len() ==> !((#[trigger] block_text(lines)[i]) == '*'
                && block_text(lines)[i + 1] == '/') && !(block_text(lines)[i] == '/' && block_text(
                lines,
            )[i + 1] == '*'),
        block_text(lines).last() != '/',
    ensures
        comment::comment_lines(
            before + seq!['/', '*'] + block_text(lines) + seq!['*', '/'] + rest,
        ) == (match comment::comment_lines(rest) {
            Some(more) => Some(normal_lines(lines) + more),
            None => None,
        }),
{
    let body = block_text(lines);
    lemma_block_lines(lines);
    comment_laws::law_read_block(before, body, rest);
    assert(before + comment_laws::block_comment(body) + rest =~= before + seq!['/', '*'] + body
        + seq!['*', '/'] + rest);
}

/// A line feed before the end of a block comment ends its last line, and starts no
/// further one. Without any lines there is nothing to read.
pub proof fn law_block_ended(before: Seq<char>, lines: Seq<BlockLine>, rest: Seq<char>)
    requires
        !before.contains('/'),
        forall|i: int| 0 <= i < lines.len() ==> is_block_line(#[trigger] lines[i]),
        forall|i: int|
            0 <= i && i + 1 < block_text(lines).len() ==> !((#[trigger] block_text(lines)[i]) == '*'
                && block_text(lines)[i + 1] == '/') && !(block_text(lines)[i] == '/' && block_text(
                lines,
            )[i + 1] == '*'),
    ensures
        comment::comment_lines(
            before + seq!['/', '*'] + block_text(lines) + (if lines.len() == 0 {
                Seq::empty()
            } else {
                seq!['\n']
            }) + seq!['*', '/'] + rest,
        ) == (match comment::comment_lines(rest) {
            Some(more) => Some(normal_lines(lines) + more),
            None => None,
        }),
{
    let feed = if lines.len() == 0 {
        Seq::<char>::empty()
    } else {
        seq!['\n']
    };
    let text = block_text(lines);
    let body = text + feed;
    let none = Seq::<char>::empty();
    let ended = ended_lines(lines);
    assert forall|i: int| 0 <= i && i + 1 < body.len() implies !((#[trigger] body[i]) == '*'
        && body[i + 1] == '/') && !(body[i] == '/' && body[i + 1] == '*') by {
        if i + 1 < text.len() {
            assert(body[i] == text[i] && body[i + 1] == text[i + 1]);
        }
    }
    comment_laws::law_read_block(before, body, rest);
    assert(before + comment_laws::block_comment(body) + rest =~= before + seq!['/', '*'] + text
        + feed + seq!['*', '/'] + rest);
    lemma_ended_text(lines);
    assert(body =~= text_laws::ended_text(ended) + none);
    assert forall|i: int| 0 <= i < ended.len() implies text_laws::is_ended_line(
        #[trigger] ended[i],
    ) by {
        assert(is_block_line(lines[i]));
        lemma_block_line(lines[i]);
        let s = block_line_text(lines[i]);
        assert forall|j: int| 0 <= j < ended[i].line.len() implies (#[trigger] ended[i].line[j])
            != '\n' by {
            assert(s.contains(s[j]));
        }
    }
    text_laws::law_lines(ended, none);
    let read = text::text_lines(body);
    assert(read.len() == lines.len());
    assert forall|i: int| 0 <= i < lines.len() implies comment::strip_margin(read[i])
        == lines[i].line by {
        assert(is_block_line(lines[i]));
        lemma_block_line(lines[i]);
        assert(read[i] == ended[i].line);
    }
    assert(comment::block_lines(body) =~= normal_lines(lines));
}

proof fn lemma_ended_text(lines: Seq<BlockLine>)
    ensures
        text_laws::ended_text(ended_lines(lines)) == block_text(lines) + (if lines.len() == 0 {
            Seq::empty()
        } else {
            seq!['\n']
        }),
    decreases lines.len(),
{
    if lines.len() > 0 {
        let rest = lines.drop_first();
        lemma_ended_text(rest);
        assert(ended_lines(lines).drop_first() =~= ended_lines(rest));
        let s = block_line_text(lines[0]);
        assert(text_laws::ended(ended_lines(lines)[0]) =~= s + seq!['\n']);
        assert(text_laws::ended_text(ended_lines(lines)) =~= block_text(lines) + seq!['\n']);
    } else {
        assert(ended_lines(lines) =~= Seq::<EndedLine>::empty());
        assert(text_laws::ended_text(ended_lines(lines)) =~= block_text(lines) + Seq::empty());
    }
}

/// A block comment within a block comment is text of it, with its delimiters.
pub proof fn law_nested_written(
    before: Seq<char>,
    first: Seq<char>,
    inner: Seq<char>,
    last: Seq<char>,
    space: Seq<char>,
    rest: Seq<char>,
)
    requires
        !before.contains('/'),
        comment_laws::is_plain(first, '/'),
        comment_laws::is_plain(inner, '*'),
        comment_laws::is_plain(last, '*'),
        text_laws::is_pad(space),
        ({
            let line = first + seq!['/', '*'] + inner + seq!['*', '/'] + last;
            &&& !line.contains('\n')
            &&& text_laws::is_tight(line)
            &&& !(line[0] == '*' && line[1] == ' ')
            &&& space.len() == 0 ==> line.last() != '/'
        }),
    ensures
        ({
            let line = first + seq!['/', '*'] + inner + seq!['*', '/'] + last;
            comment::comment_lines(before + seq!['/', '*'] + line + space + seq!['*', '/'] + rest)
                == line_first(CommentMode::Normal, line, rest)
        }),
{
    let line = first + seq!['/', '*'] + inner + seq!['*', '/'] + last;
    let tail = last + space;
    let none = Seq::<char>::empty();
    assert(first + comment_laws::block_comment(inner) + tail =~= line + space);
    assert(comment_laws::is_plain(tail, '*')) by {
        assert forall|i: int| 0 <= i && i + 1 < tail.len() implies !((#[trigger] tail[i]) == '*'
            && tail[i + 1] == '/') && !(tail[i] == '/' && tail[i + 1] == '*') by {
            if i + 1 < last.len() {
                assert(last[i] == tail[i] && last[i + 1] == tail[i + 1]);
            } else {
                assert(tail[i + 1] == space[i + 1 - last.len()]);
            }
        }
        if space.len() > 0 {
            assert(tail.last() == space[space.len() - 1]);
        }
    }
    comment_laws::law_read_nested(before, first, inner, tail, rest);
    let l = BlockLine { before: none, margin: false, line, behind: space };
    let one = seq![l];
    assert(block_line_text(l) =~= line + space);
    assert(is_block_line(one[0]));
    lemma_block_lines(one);
    assert(block_text(one) == block_line_text(l));
    assert(normal_lines(one) =~= seq![CommentLine { mode: CommentMode::Normal, line }]);
    assert(before + comment_laws::block_comment(line + space) + rest =~= before + seq!['/', '*']
        + line + space + seq!['*', '/'] + rest);
}

/// A block comment that does not end cannot be read.
pub proof fn law_unfinished_block(before: Seq<char>, body: Seq<char>)
    requires
        !before.contains('/'),
        forall|i: int|
            0 <= i && i + 1 < body.len() ==> !((#[trigger] body[i]) == '*' && body[i + 1] == '/'),
    ensures
        comment::comment_lines(before + seq!['/', '*'] + body) is None,
{
    let s = before + seq!['/', '*'] + body;
    let tail = seq!['/', '*'] + body;
    assert(s =~= before + tail);
    comment_laws::lemma_start_behind(before, tail);
    assert(s.skip(before.len() as int + 2) =~= body);
    lemma_no_end(body, 1);
    comment::lemma_block_comment(s);
}

/// What holds no closing delimiter ends no comment.
pub proof fn lemma_no_end(s: Seq<char>, depth: int)
    requires
        forall|i: int| 0 <= i && i + 1 < s.len() ==> !((#[trigger] s[i]) == '*' && s[i + 1] == '/'),
    ensures
        comment::block_end(s, depth) is None,
    decreases s.len(),
{
    if s.len() >= 2 {
        let a = s.skip(1);
        let b = s.skip(2);
        assert(!(s[0] == '*' && s[1] == '/'));
        assert forall|i: int| 0 <= i && i + 1 < a.len() implies !((#[trigger] a[i]) == '*' && a[i
            + 1] == '/') by {
            assert(s[i + 1] == a[i]);
        }
        assert forall|i: int| 0 <= i && i + 1 < b.len() implies !((#[trigger] b[i]) == '*' && b[i
            + 1] == '/') by {
            assert(s[i + 2] == b[i]);
        }
        lemma_no_end(a, depth);
        lemma_no_end(b, depth + 1);
    }
}

/// Lines of one mode form one comment of that mode, with line feeds between them.
pub proof fn law_one_comment(mode: CommentMode, lines: Seq<Seq<char>>)
    requires
        lines.len() > 0,
    ensures
        comment::comments_of(lines.map_values(|line: Seq<char>| CommentLine { mode, line })) == seq![
            CommentView { mode, lines: comment::join(lines) },
        ],
{
    comment_laws::lemma_one_comment(mode, lines);
}

/// Where the mode changes, one comment ends and another begins: the comments of the
/// lines before it, and those of the lines behind it.
pub proof fn law_mode_change(a: Seq<CommentLine>, b: Seq<CommentLine>)
    requires
        a.len() > 0 && b.len() > 0 ==> a[a.len() - 1].mode != b[0].mode,
    ensures
        comment::comments_of(a + b) == comment::comments_of(a) + comment::comments_of(b),
    decreases b.len(),
{
    if b.len() == 0 {
        assert(a + b =~= a);
        assert(comment::comments_of(a) + comment::comments_of(b) =~= comment::comments_of(a));
    } else {
        let some = b.drop_last();
        assert((a + b).drop_last() =~= a + some);
        law_mode_change(a, some);
        comment_laws::law_no_line_lost(some);
        if some.len() > 0 {
            assert((a + b)[(a + b).len() - 2] == some[some.len() - 1]);
            assert(b[b.len() - 2] == some[some.len() - 1]);
        } else if a.len() > 0 {
            assert((a + b)[(a + b).len() - 2] == a[a.len() - 1]);
        }
        assert(comment::comments_of(a + b) =~= comment::comments_of(a) + comment::comments_of(b));
    }
}

/// The comments of a text are those that its comment lines form.
pub proof fn law_gap(s: Seq<char>)
    ensures
        match (comment::gap(s), comment::comment_lines(s)) {
            (Some(comments), Some(lines)) => comments == comment::comments_of(lines),
            (None, None) => true,
            _ => false,
        },
{
}

} // verus!
