//! Comments within comments, and what is no comment.
use vstd::prelude::*;
use crate::comment;
use crate::comment_laws;
use crate::written_laws::{self, BlockLine};

verus! {

/// What is in no comment is passed over, slashes too, as long as no two characters
/// of it open a comment.
pub proof fn law_passed_over(before: Seq<char>, rest: Seq<char>)
    requires
        forall|i: int|
            0 <= i && i + 1 < before.len() ==> !((#[trigger] before[i]) == '/' && (before[i + 1]
                == '/' || before[i + 1] == '*')),
        before.len() > 0 && rest.len() > 0 ==> !(before.last() == '/' && (rest[0] == '/' || rest[0]
            == '*')),
    ensures
        comment::comment_lines(before + rest) == comment::comment_lines(rest),
{
    let s = before + rest;
    let n = before.len() as int;
    let k = comment::comment_start(rest) as int;
    comment::lemma_comment_start(rest);
    assert forall|i: int| 0 <= i < n + k implies !comment::opens_at(s, i) by {
        if i < n {
            assert(s[i] == before[i]);
            if i + 1 < n {
                assert(s[i + 1] == before[i + 1]);
            }
        } else {
            assert(!comment::opens_at(rest, i - n));
        }
    }
    if k < rest.len() {
        assert(comment::opens_at(s, n + k));
    }
    comment::lemma_comment_start_is(s, n + k);
    reveal(comment::comment_lines);
    if k + 1 < rest.len() {
        assert(s.skip(n + k + 2) =~= rest.skip(k + 2));
    }
}

/// The text of a block comment that holds others: text, and comments with text
/// behind each.
pub struct Nested {
    pub text: Seq<char>,
    pub parts: Seq<NestedPart>,
}

/// A comment within a comment, and the text behind it.
pub struct NestedPart {
    pub inner: Nested,
    pub behind: Seq<char>,
}

/// How the text of a block comment is written.
pub open spec fn nested_text(n: Nested) -> Seq<char>
    decreases n,
{
    n.text + parts_text(n.parts)
}

/// How the comments within a comment are written, with the text behind each.
pub open spec fn parts_text(parts: Seq<NestedPart>) -> Seq<char>
    decreases parts,
{
    if parts.len() == 0 {
        Seq::empty()
    } else {
        part_text(parts[0]) + parts_text(parts.subrange(1, parts.len() as int))
    }
}

/// How a comment within a comment is written, with the text behind it.
pub open spec fn part_text(part: NestedPart) -> Seq<char>
    decreases part,
{
    seq!['/', '*'] + nested_text(part.inner) + seq!['*', '/'] + part.behind
}

/// The first character of what follows: of a further comment, or of the end of the
/// one around it.
pub open spec fn next_sign(parts: Seq<NestedPart>) -> char {
    if parts.len() == 0 {
        '*'
    } else {
        '/'
    }
}

/// The texts hold no delimiters of their own.
pub open spec fn is_nested(n: Nested) -> bool
    decreases n,
{
    comment_laws::is_plain(n.text, next_sign(n.parts)) && are_parts(n.parts)
}

/// The comments within a comment are such.
pub open spec fn are_parts(parts: Seq<NestedPart>) -> bool
    decreases parts,
{
    parts.len() > 0 ==> is_part(parts[0], next_sign(parts.subrange(1, parts.len() as int)))
        && are_parts(parts.subrange(1, parts.len() as int))
}

/// A comment within a comment, where `next` follows.
pub open spec fn is_part(part: NestedPart, next: char) -> bool
    decreases part,
{
    is_nested(part.inner) && comment_laws::is_plain(part.behind, next)
}

proof fn lemma_nested(n: Nested, tail: Seq<char>, depth: int)
    requires
        is_nested(n),
        tail.len() >= 2,
        tail[0] == '*',
        tail[1] == '/',
        depth >= 1,
    ensures
        comment::block_end(nested_text(n) + tail, depth) == comment::after(
            nested_text(n).len(),
            comment::block_end(tail, depth),
        ),
    decreases n, 1int,
{
    let more = parts_text(n.parts) + tail;
    lemma_parts(n.parts, tail, depth);
    assert(nested_text(n) + tail =~= n.text + more);
    if n.parts.len() == 0 {
        assert(more =~= tail);
    } else {
        let p = n.parts[0];
        assert(more[0] == part_text(p)[0] && more[1] == part_text(p)[1]);
    }
    comment_laws::lemma_plain_passed(n.text, more, depth);
}

proof fn lemma_parts(parts: Seq<NestedPart>, tail: Seq<char>, depth: int)
    requires
        are_parts(parts),
        tail.len() >= 2,
        tail[0] == '*',
        tail[1] == '/',
        depth >= 1,
    ensures
        comment::block_end(parts_text(parts) + tail, depth) == comment::after(
            parts_text(parts).len(),
            comment::block_end(tail, depth),
        ),
    decreases parts, 1int,
{
    if parts.len() == 0 {
        assert(parts_text(parts) + tail =~= tail);
    } else {
        let rest = parts.subrange(1, parts.len() as int);
        let more = parts_text(rest) + tail;
        lemma_parts(rest, tail, depth);
        if rest.len() == 0 {
            assert(more =~= tail);
        } else {
            assert(more[0] == part_text(rest[0])[0] && more[1] == part_text(rest[0])[1]);
        }
        assert(parts_text(parts) + tail =~= part_text(parts[0]) + more);
        lemma_part(parts[0], more, depth);
    }
}

proof fn lemma_part(part: NestedPart, more: Seq<char>, depth: int)
    requires
        more.len() >= 2,
        more[0] == '*' && more[1] == '/' || more[0] == '/' && more[1] == '*',
        is_part(part, more[0]),
        depth >= 1,
    ensures
        comment::block_end(part_text(part) + more, depth) == comment::after(
            part_text(part).len(),
            comment::block_end(more, depth),
        ),
    decreases part, 0int,
{
    let last = part.behind + more;
    let close = seq!['*', '/'] + last;
    let inner = nested_text(part.inner);
    let all = part_text(part) + more;
    lemma_nested(part.inner, close, depth + 1);
    comment_laws::lemma_plain_passed(part.behind, more, depth);
    assert(all.skip(2) =~= inner + close);
    assert(close.skip(2) =~= last);
    assert(all[0] == '/' && all[1] == '*');
    assert(comment::block_end(close, depth + 1) == comment::after(
        2,
        comment::block_end(last, depth),
    ));
}

/// Comments may stand within comments, to any depth: a block comment ends at the
/// delimiter that closes it, behind those that close the comments in it. Its lines
/// are read back as they were written, and what is behind it is read on.
pub proof fn law_comments_within(
    before: Seq<char>,
    n: Nested,
    lines: Seq<BlockLine>,
    rest: Seq<char>,
)
    requires
        !before.contains('/'),
        is_nested(n),
        lines.len() > 0,
        forall|i: int| 0 <= i < lines.len() ==> written_laws::is_block_line(#[trigger] lines[i]),
        written_laws::block_line_text(lines.last()).len() > 0,
        written_laws::block_text(lines) == nested_text(n),
    ensures
        comment::comment_lines(
            before + seq!['/', '*'] + nested_text(n) + seq!['*', '/'] + rest,
        ) == (match comment::comment_lines(rest) {
            Some(more) => Some(written_laws::normal_lines(lines) + more),
            None => None,
        }),
{
    let body = nested_text(n);
    let tail = seq!['*', '/'] + rest;
    lemma_nested(n, tail, 1);
    assert(body + seq!['*', '/'] + rest =~= body + tail);
    comment_laws::lemma_read_body(before, body, rest);
    assert(before + comment_laws::block_comment(body) + rest =~= before + seq!['/', '*'] + body
        + seq!['*', '/'] + rest);
    written_laws::lemma_block_lines(lines);
}

proof fn lemma_part_is(part: NestedPart, next: char)
    requires
        is_part(part, next),
    ensures
        is_nested(part.inner),
        comment_laws::is_plain(part.behind, next),
        part_text(part) == seq!['/', '*'] + nested_text(part.inner) + seq!['*', '/'] + part.behind,
{
}

proof fn lemma_open_parts(parts: Seq<NestedPart>, depth: int)
    requires
        are_parts(parts),
        depth >= 1,
    ensures
        comment::block_end(parts_text(parts), depth) is None,
    decreases parts.len(),
{
    if parts.len() > 0 {
        let rest = parts.subrange(1, parts.len() as int);
        let more = parts_text(rest);
        let part = parts[0];
        if rest.len() > 0 {
            lemma_open_parts(rest, depth);
            assert(more[0] == part_text(rest[0])[0] && more[1] == part_text(rest[0])[1]);
            lemma_part(part, more, depth);
        } else {
            let close = seq!['*', '/'] + part.behind;
            let all = part_text(part);
            lemma_part_is(part, '*');
            lemma_nested(part.inner, close, depth + 1);
            written_laws::lemma_no_end(part.behind, depth);
            assert(all + more =~= all);
            assert(all.skip(2) =~= nested_text(part.inner) + close);
            assert(close.skip(2) =~= part.behind);
            assert(all[0] == '/' && all[1] == '*');
        }
    }
}

/// A block comment does not end with the comments in it: without a delimiter of its
/// own it cannot be read.
pub proof fn law_unfinished_around(before: Seq<char>, n: Nested)
    requires
        !before.contains('/'),
        is_nested(n),
    ensures
        comment::comment_lines(before + seq!['/', '*'] + nested_text(n)) is None,
{
    let body = nested_text(n);
    let s = before + seq!['/', '*'] + body;
    let tail = seq!['/', '*'] + body;
    let more = parts_text(n.parts);
    if n.parts.len() == 0 {
        assert(body =~= n.text);
        written_laws::lemma_no_end(n.text, 1);
    } else {
        lemma_open_parts(n.parts, 1);
        assert(more[0] == part_text(n.parts[0])[0] && more[1] == part_text(n.parts[0])[1]);
        comment_laws::lemma_plain_passed(n.text, more, 1);
    }
    assert(s =~= before + tail);
    comment_laws::lemma_start_behind(before, tail);
    assert(s.skip(before.len() as int + 2) =~= body);
    comment::lemma_block_comment(s);
}

} // verus!
