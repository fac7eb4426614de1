//! What holds of every extraction.
use vstd::prelude::*;
use crate::comment::{self, CommentView};
use crate::comment_laws;
use crate::extract::{self, Progress};
use crate::location::{Extent, HashLineColumn};
use crate::text;
use crate::tokens::{self, TokenKind, TokenView};

verus! {

/// The lines of a text start at its first byte and behind each line feed that
/// something follows, in order.
pub proof fn law_line_starts(bytes: Seq<u8>)
    ensures
        ({
            let starts = extract::line_starts(bytes);
            &&& forall|p: int|
                #[trigger] starts.contains(p) <==> 0 <= p < bytes.len() && (p == 0 || bytes[p - 1]
                    == extract::LINE_FEED)
            &&& forall|i: int, j: int| 0 <= i < j < starts.len() ==> starts[i] < starts[j]
        }),
    decreases bytes.len(),
{
    let starts = extract::line_starts(bytes);
    if bytes.len() > 0 {
        let some = bytes.drop_last();
        let before = extract::line_starts(some);
        law_line_starts(some);
        let last = bytes.len() - 1;
        assert forall|i: int| 0 <= i < before.len() implies before[i] < last by {
            assert(before.contains(before[i]));
        }
        assert forall|p: int| #[trigger] starts.contains(p) <==> 0 <= p < bytes.len() && (p == 0
            || bytes[p - 1] == extract::LINE_FEED) by {
            if before.contains(p) {
                let i = choose|i: int| 0 <= i < before.len() && before[i] == p;
                assert(starts[i] == p);
            }
            if starts.contains(p) && p != last {
                let i = choose|i: int| 0 <= i < starts.len() && starts[i] == p;
                assert(before[i] == p);
            }
            if p == last && starts.len() > before.len() {
                assert(starts[starts.len() - 1] == p);
            }
            if p < last {
                assert(before.contains(p) <==> 0 <= p && (p == 0 || some[p - 1]
                    == extract::LINE_FEED));
            }
        }
    }
}

/// One of the tokens, or the closing delimiter of one of the groups, starts at `key`.
/// Punctuation is no such token.
pub open spec fn is_start(tokens: Seq<TokenView>, key: HashLineColumn) -> bool {
    exists|i: int| 0 <= i < tokens.len() && #[trigger] starts_at(tokens[i], key)
}

/// The token, or its closing delimiter, starts at `key`, and is no punctuation.
pub open spec fn starts_at(t: TokenView, key: HashLineColumn) -> bool {
    t.kind !is Punct && (t.open.start == key.0 || t.kind is Group && t.close.start == key.0)
}

/// The comments are those of a part of the text that ends at `key`, and there is
/// one at least.
pub open spec fn is_found(source: Seq<char>, key: HashLineColumn, comments: Seq<CommentView>) -> bool {
    &&& comments.len() > 0
    &&& extract::offset(source, key.0) matches Some(end) && exists|from: int|
        (#[trigger] text::slice(source, from, end)) matches Some(s) && comment::gap(s) == Some(
            comments,
        )
}

/// Every entry of `after` was there before, or was found in the text before one
/// of the tokens.
pub open spec fn is_traced(
    source: Seq<char>,
    tokens: Seq<TokenView>,
    before: Map<HashLineColumn, Seq<CommentView>>,
    after: Map<HashLineColumn, Seq<CommentView>>,
) -> bool {
    forall|key: HashLineColumn| #[trigger]
        after.contains_key(key) ==> (before.contains_key(key) && before[key] == after[key]) || (
        is_start(tokens, key) && is_found(source, key, after[key]))
}

/// Entries that are traced to some of the tokens are traced to all of them.
proof fn lemma_traced_more(
    source: Seq<char>,
    part: Seq<TokenView>,
    tokens: Seq<TokenView>,
    from: int,
    before: Map<HashLineColumn, Seq<CommentView>>,
    after: Map<HashLineColumn, Seq<CommentView>>,
)
    requires
        is_traced(source, part, before, after),
        0 <= from,
        from + part.len() <= tokens.len(),
        part == tokens.subrange(from, from + part.len()),
    ensures
        is_traced(source, tokens, before, after),
{
    assert forall|key: HashLineColumn| #[trigger] after.contains_key(key) implies (
    before.contains_key(key) && before[key] == after[key]) || (is_start(tokens, key) && is_found(
        source,
        key,
        after[key],
    )) by {
        if is_start(part, key) {
            let i = choose|i: int| 0 <= i < part.len() && #[trigger] starts_at(part[i], key);
            assert(starts_at(tokens[from + i], key));
        }
    }
}

proof fn lemma_pass_traced(source: Seq<char>, tokens: Seq<TokenView>, p: Progress, at: Extent)
    requires
        is_start(tokens, HashLineColumn(at.start)),
    ensures
        extract::pass(source, p, at) matches Some(q) ==> is_traced(
            source,
            tokens,
            p.comments,
            q.comments,
        ),
{
}

/// Where the comments of a source text stand: each entry is at the start of an
/// identifier, a literal or a delimiter, holds one comment at least, and holds the
/// comments of a part of the text that ends there.
pub proof fn law_entries(source: Seq<char>, tokens: Seq<TokenView>, p: Progress)
    ensures
        extract::walk(source, tokens, p) matches Some(q) ==> is_traced(
            source,
            tokens,
            p.comments,
            q.comments,
        ),
    decreases tokens.len(),
{
    reveal(extract::walk);
    if tokens.len() > 0 {
        let t = tokens[0];
        let n = tokens::tree_len(tokens);
        match t.kind {
            TokenKind::Group(_) => {
                assert(starts_at(tokens[0], HashLineColumn(t.open.start)));
                assert(starts_at(tokens[0], HashLineColumn(t.close.start)));
                lemma_pass_traced(source, tokens, p, t.open);
                if let Some(opened) = extract::pass(source, p, t.open) {
                    let marked = extract::mark(opened, 1, true);
                    let inside = tokens.subrange(1, n);
                    law_entries(source, inside, marked);
                    if let Some(inner) = extract::walk(source, inside, marked) {
                        lemma_traced_more(source, inside, tokens, 1, marked.comments, inner.comments);
                        lemma_pass_traced(source, tokens, inner, t.close);
                        if let Some(closed) = extract::pass(source, inner, t.close) {
                            law_entries(source, tokens.skip(n), closed);
                            if let Some(q) = extract::walk(source, tokens.skip(n), closed) {
                                lemma_traced_more(
                                    source,
                                    tokens.skip(n),
                                    tokens,
                                    n,
                                    closed.comments,
                                    q.comments,
                                );
                            }
                        }
                    }
                }
            },
            TokenKind::Punct(sign, _) => {
                extract::lemma_run_before(tokens.skip(1), t.open.end);
                let m = 1 + extract::run_before(tokens.skip(1), t.open.end);
                let skipped = extract::mark(p, m, false);
                law_entries(source, tokens.skip(m), skipped);
                if let Some(q) = extract::walk(source, tokens.skip(m), skipped) {
                    lemma_traced_more(source, tokens.skip(m), tokens, m, p.comments, q.comments);
                }
                if let Some(moved) = extract::move_to(source, p, t.open.end) {
                    let marked = extract::mark(moved, 1, true);
                    law_entries(source, tokens.skip(1), marked);
                    if let Some(q) = extract::walk(source, tokens.skip(1), marked) {
                        lemma_traced_more(source, tokens.skip(1), tokens, 1, p.comments, q.comments);
                    }
                }
            },
            _ => {
                assert(starts_at(tokens[0], HashLineColumn(t.open.start)));
                lemma_pass_traced(source, tokens, p, t.open);
                if let Some(passed) = extract::pass(source, p, t.open) {
                    let marked = extract::mark(passed, 1, true);
                    law_entries(source, tokens.skip(1), marked);
                    if let Some(q) = extract::walk(source, tokens.skip(1), marked) {
                        lemma_traced_more(
                            source,
                            tokens.skip(1),
                            tokens,
                            1,
                            marked.comments,
                            q.comments,
                        );
                    }
                }
            },
        }
    }
}

/// A comment that stands before a token is found: where the text between the last
/// token and the next holds line comments of one mode, the map has them under the
/// position of the next token, as one comment with their lines.
pub proof fn law_comment_found(
    before: Seq<char>,
    mode: comment::CommentMode,
    lines: Seq<Seq<char>>,
    behind: Seq<char>,
    source: Seq<char>,
    p: Progress,
    at: Extent,
)
    requires
        lines.len() > 0,
        !before.contains('/'),
        !behind.contains('/'),
        forall|i: int| 0 <= i < lines.len() ==> comment_laws::is_line(mode, #[trigger] lines[i]),
        extract::offset(source, at.start) matches Some(end) && text::slice(source, p.last, end)
            == Some(comment_laws::line_comments(before, mode, lines) + behind),
        extract::offset(source, at.end) is Some,
    ensures
        extract::pass(source, p, at) matches Some(q) && q.comments == p.comments.insert(
            HashLineColumn(at.start),
            seq![CommentView { mode, lines: comment::join(lines) }],
        ),
{
    comment_laws::law_read_comment(before, mode, lines, behind);
}

/// Every entry of `before` is still there; only one at the start of one of the
/// tokens may hold other comments.
pub open spec fn is_staying(
    tokens: Seq<TokenView>,
    before: Map<HashLineColumn, Seq<CommentView>>,
    after: Map<HashLineColumn, Seq<CommentView>>,
) -> bool {
    forall|key: HashLineColumn| #[trigger]
        before.contains_key(key) ==> after.contains_key(key) && (!is_start(tokens, key)
            ==> after[key] == before[key])
}

proof fn lemma_staying_more(
    part: Seq<TokenView>,
    tokens: Seq<TokenView>,
    from: int,
    before: Map<HashLineColumn, Seq<CommentView>>,
    after: Map<HashLineColumn, Seq<CommentView>>,
)
    requires
        is_staying(part, before, after),
        0 <= from,
        from + part.len() <= tokens.len(),
        part == tokens.subrange(from, from + part.len()),
    ensures
        is_staying(tokens, before, after),
{
    assert forall|key: HashLineColumn| #[trigger] before.contains_key(key) implies
        after.contains_key(key) && (!is_start(tokens, key) ==> after[key] == before[key]) by {
        if is_start(part, key) {
            let i = choose|i: int| 0 <= i < part.len() && #[trigger] starts_at(part[i], key);
            assert(starts_at(tokens[from + i], key));
        }
    }
}

proof fn lemma_pass_staying(source: Seq<char>, tokens: Seq<TokenView>, p: Progress, at: Extent)
    requires
        is_start(tokens, HashLineColumn(at.start)),
    ensures
        extract::pass(source, p, at) matches Some(q) ==> is_staying(
            tokens,
            p.comments,
            q.comments,
        ),
{
}

proof fn lemma_staying_twice(
    tokens: Seq<TokenView>,
    a: Map<HashLineColumn, Seq<CommentView>>,
    b: Map<HashLineColumn, Seq<CommentView>>,
    c: Map<HashLineColumn, Seq<CommentView>>,
)
    requires
        is_staying(tokens, a, b),
        is_staying(tokens, b, c),
    ensures
        is_staying(tokens, a, c),
{
    assert forall|key: HashLineColumn| #[trigger] a.contains_key(key) implies c.contains_key(key)
        && (!is_start(tokens, key) ==> c[key] == a[key]) by {
        assert(b.contains_key(key));
    }
}

/// What has been found stays: no entry is lost, and an entry changes only if a
/// token starts at its position.
pub proof fn law_entries_stay(source: Seq<char>, tokens: Seq<TokenView>, p: Progress)
    ensures
        extract::walk(source, tokens, p) matches Some(q) ==> is_staying(
            tokens,
            p.comments,
            q.comments,
        ),
    decreases tokens.len(),
{
    reveal(extract::walk);
    if tokens.len() > 0 {
        let t = tokens[0];
        let n = tokens::tree_len(tokens);
        match t.kind {
            TokenKind::Group(_) => {
                assert(starts_at(tokens[0], HashLineColumn(t.open.start)));
                assert(starts_at(tokens[0], HashLineColumn(t.close.start)));
                lemma_pass_staying(source, tokens, p, t.open);
                if let Some(opened) = extract::pass(source, p, t.open) {
                    let marked = extract::mark(opened, 1, true);
                    let inside = tokens.subrange(1, n);
                    law_entries_stay(source, inside, marked);
                    if let Some(inner) = extract::walk(source, inside, marked) {
                        lemma_staying_more(inside, tokens, 1, marked.comments, inner.comments);
                        lemma_staying_twice(tokens, p.comments, opened.comments, inner.comments);
                        lemma_pass_staying(source, tokens, inner, t.close);
                        if let Some(closed) = extract::pass(source, inner, t.close) {
                            law_entries_stay(source, tokens.skip(n), closed);
                            if let Some(q) = extract::walk(source, tokens.skip(n), closed) {
                                lemma_staying_more(
                                    tokens.skip(n),
                                    tokens,
                                    n,
                                    closed.comments,
                                    q.comments,
                                );
                                lemma_staying_twice(
                                    tokens,
                                    inner.comments,
                                    closed.comments,
                                    q.comments,
                                );
                                lemma_staying_twice(
                                    tokens,
                                    p.comments,
                                    inner.comments,
                                    q.comments,
                                );
                            }
                        }
                    }
                }
            },
            TokenKind::Punct(sign, _) => {
                extract::lemma_run_before(tokens.skip(1), t.open.end);
                let m = 1 + extract::run_before(tokens.skip(1), t.open.end);
                let skipped = extract::mark(p, m, false);
                law_entries_stay(source, tokens.skip(m), skipped);
                if let Some(q) = extract::walk(source, tokens.skip(m), skipped) {
                    lemma_staying_more(tokens.skip(m), tokens, m, p.comments, q.comments);
                }
                if let Some(moved) = extract::move_to(source, p, t.open.end) {
                    let marked = extract::mark(moved, 1, true);
                    law_entries_stay(source, tokens.skip(1), marked);
                    if let Some(q) = extract::walk(source, tokens.skip(1), marked) {
                        lemma_staying_more(tokens.skip(1), tokens, 1, p.comments, q.comments);
                    }
                }
            },
            _ => {
                assert(starts_at(tokens[0], HashLineColumn(t.open.start)));
                lemma_pass_staying(source, tokens, p, t.open);
                if let Some(passed) = extract::pass(source, p, t.open) {
                    let marked = extract::mark(passed, 1, true);
                    law_entries_stay(source, tokens.skip(1), marked);
                    if let Some(q) = extract::walk(source, tokens.skip(1), marked) {
                        lemma_staying_more(
                            tokens.skip(1),
                            tokens,
                            1,
                            marked.comments,
                            q.comments,
                        );
                        lemma_staying_twice(tokens, p.comments, passed.comments, q.comments);
                    }
                }
            },
        }
    }
}

/// A doc comment that the tokenizer gave as an attribute is left out of the tokens,
/// with all that stands within it. The text that has been read does not move on, so
/// that the comment is read before the next token.
pub proof fn law_doc_comment_left_out(
    source: Seq<char>,
    tokens: Seq<TokenView>,
    p: Progress,
    sign: char,
)
    requires
        tokens.len() > 0,
        tokens[0].kind matches TokenKind::Punct(c, _) && c == sign,
        extract::is_doc_comment(source, sign, tokens[0].open) == Some(true),
    ensures
        ({
            let n = 1 + extract::run_before(tokens.skip(1), tokens[0].open.end);
            extract::walk(source, tokens, p) == extract::walk(
                source,
                tokens.skip(n),
                Progress { keep: p.keep + Seq::new(n as nat, |i: int| false), ..p },
            )
        }),
{
    reveal(extract::walk);
}

/// No token stands for a doc comment.
pub open spec fn has_no_doc_comment(source: Seq<char>, tokens: Seq<TokenView>) -> bool {
    forall|i: int|
        0 <= i < tokens.len() ==> ((#[trigger] tokens[i]).kind matches TokenKind::Punct(sign, _)
            ==> extract::is_doc_comment(source, sign, tokens[i].open) != Some(true))
}

/// Where no token stands for a doc comment, every token is kept.
pub proof fn law_all_kept(source: Seq<char>, tokens: Seq<TokenView>, p: Progress)
    requires
        has_no_doc_comment(source, tokens),
    ensures
        extract::walk(source, tokens, p) matches Some(q) ==> q.keep == p.keep + Seq::new(
            tokens.len(),
            |i: int| true,
        ),
    decreases tokens.len(),
{
    reveal(extract::walk);
    if tokens.len() == 0 {
        assert(p.keep + Seq::new(tokens.len(), |i: int| true) =~= p.keep);
    } else {
        let t = tokens[0];
        let n = tokens::tree_len(tokens);
        let inside = tokens.subrange(1, n);
        assert(has_no_doc_comment(source, inside)) by {
            assert forall|i: int| 0 <= i < inside.len() implies ((
            #[trigger] inside[i]).kind matches TokenKind::Punct(sign, _) ==> extract::is_doc_comment(
                source,
                sign,
                inside[i].open,
            ) != Some(true)) by {
                assert(inside[i] == tokens[i + 1]);
            }
        }
        lemma_rest_no_doc_comment(source, tokens, n);
        lemma_rest_no_doc_comment(source, tokens, 1);
        match t.kind {
            TokenKind::Group(_) => {
                if let Some(opened) = extract::pass(source, p, t.open) {
                    let marked = extract::mark(opened, 1, true);
                    law_all_kept(source, inside, marked);
                    if let Some(inner) = extract::walk(source, inside, marked) {
                        if let Some(closed) = extract::pass(source, inner, t.close) {
                            law_all_kept(source, tokens.skip(n), closed);
                            if let Some(q) = extract::walk(source, tokens.skip(n), closed) {
                                assert(q.keep =~= p.keep + Seq::new(tokens.len(), |i: int| true));
                            }
                        }
                    }
                }
            },
            TokenKind::Punct(sign, _) => {
                if let Some(moved) = extract::move_to(source, p, t.open.end) {
                    let marked = extract::mark(moved, 1, true);
                    law_all_kept(source, tokens.skip(1), marked);
                    if let Some(q) = extract::walk(source, tokens.skip(1), marked) {
                        assert(q.keep =~= p.keep + Seq::new(tokens.len(), |i: int| true));
                    }
                }
            },
            _ => {
                if let Some(passed) = extract::pass(source, p, t.open) {
                    let marked = extract::mark(passed, 1, true);
                    law_all_kept(source, tokens.skip(1), marked);
                    if let Some(q) = extract::walk(source, tokens.skip(1), marked) {
                        assert(q.keep =~= p.keep + Seq::new(tokens.len(), |i: int| true));
                    }
                }
            },
        }
    }
}

proof fn lemma_rest_no_doc_comment(source: Seq<char>, tokens: Seq<TokenView>, n: int)
    requires
        has_no_doc_comment(source, tokens),
        0 <= n <= tokens.len(),
    ensures
        has_no_doc_comment(source, tokens.skip(n)),
{
    let rest = tokens.skip(n);
    assert forall|i: int| 0 <= i < rest.len() implies ((
    #[trigger] rest[i]).kind matches TokenKind::Punct(sign, _) ==> extract::is_doc_comment(
        source,
        sign,
        rest[i].open,
    ) != Some(true)) by {
        assert(rest[i] == tokens[n + i]);
    }
}

/// What the tokens are.
pub open spec fn kinds(tokens: Seq<TokenView>) -> Seq<TokenKind> {
    tokens.map_values(|t: TokenView| t.kind)
}

/// Where every token is kept, as many tokens are left, of the same kinds in the same
/// order.
pub proof fn law_nothing_removed(tokens: Seq<TokenView>)
    ensures
        kinds(tokens::masked(tokens, Seq::new(tokens.len(), |i: int| true))) == kinds(tokens),
    decreases tokens.len(),
{
    let keep = Seq::new(tokens.len(), |i: int| true);
    let left = tokens::masked(tokens, keep);
    if tokens.len() == 0 {
        assert(kinds(left) =~= kinds(tokens));
    } else {
        let n = tokens::tree_len(tokens);
        let inside = tokens.subrange(1, n);
        let rest = tokens.skip(n);
        law_nothing_removed(inside);
        law_nothing_removed(rest);
        assert(keep.skip(n) =~= Seq::new(rest.len(), |i: int| true));
        assert(keep.subrange(1, n) =~= Seq::new(inside.len(), |i: int| true));
        let left_inside = tokens::masked(inside, keep.subrange(1, n));
        let left_rest = tokens::masked(rest, keep.skip(n));
        assert(kinds(left_rest).len() == left_rest.len());
        assert(kinds(left_inside).len() == left_inside.len());
        assert(kinds(tokens) =~= seq![tokens[0].kind] + kinds(inside) + kinds(rest));
        match tokens[0].kind {
            TokenKind::Group(delimiter) => {
                assert(kinds(left) =~= seq![tokens[0].kind] + kinds(left_inside) + kinds(left_rest));
            },
            _ => {
                assert(inside =~= Seq::<TokenView>::empty());
                assert(kinds(left) =~= seq![tokens[0].kind] + kinds(left_inside) + kinds(left_rest));
            },
        }
    }
}

/// A part of a text without slashes has none, so no comment is found in it.
proof fn lemma_slice_without_slash(source: Seq<char>, a: int, b: int)
    requires
        !source.contains('/'),
    ensures
        text::slice(source, a, b) matches Some(s) ==> !s.contains('/') && comment::gap(s) == Some(
            Seq::<CommentView>::empty(),
        ),
{
    text::law_slice_is_part(source, a, b);
    if let Some(s) = text::slice(source, a, b) {
        let (x, y) = choose|x: Seq<char>, y: Seq<char>|
            source == #[trigger] (x + s + y) && text::byte_len(x) == a && text::byte_len(s) == b - a;
        assert forall|i: int| 0 <= i < s.len() implies s[i] != '/' by {
            assert(source[x.len() + i] == s[i]);
            assert(source.contains(source[x.len() + i]));
        }
        comment_laws::law_no_comment(s);
    }
}

proof fn lemma_pass_without_slash(source: Seq<char>, p: Progress, at: Extent)
    requires
        !source.contains('/'),
    ensures
        extract::pass(source, p, at) matches Some(q) ==> q.comments == p.comments,
{
    if let Some(end) = extract::offset(source, at.start) {
        lemma_slice_without_slash(source, p.last, end);
    }
}

proof fn lemma_walk_without_slash(source: Seq<char>, tokens: Seq<TokenView>, p: Progress)
    requires
        !source.contains('/'),
        has_no_doc_comment(source, tokens),
    ensures
        extract::walk(source, tokens, p) matches Some(q) ==> q.comments == p.comments,
    decreases tokens.len(),
{
    reveal(extract::walk);
    if tokens.len() > 0 {
        let t = tokens[0];
        let n = tokens::tree_len(tokens);
        let inside = tokens.subrange(1, n);
        assert(inside =~= tokens.take(n).skip(1));
        lemma_rest_no_doc_comment(source, tokens, n);
        lemma_rest_no_doc_comment(source, tokens, 1);
        lemma_pass_without_slash(source, p, t.open);
        match t.kind {
            TokenKind::Group(_) => {
                if let Some(opened) = extract::pass(source, p, t.open) {
                    let marked = extract::mark(opened, 1, true);
                    assert(has_no_doc_comment(source, inside)) by {
                        assert forall|i: int| 0 <= i < inside.len() implies ((
                        #[trigger] inside[i]).kind matches TokenKind::Punct(sign, _)
                            ==> extract::is_doc_comment(source, sign, inside[i].open) != Some(
                            true,
                        )) by {
                            assert(inside[i] == tokens[i + 1]);
                        }
                    }
                    lemma_walk_without_slash(source, inside, marked);
                    if let Some(inner) = extract::walk(source, inside, marked) {
                        lemma_pass_without_slash(source, inner, t.close);
                        if let Some(closed) = extract::pass(source, inner, t.close) {
                            lemma_walk_without_slash(source, tokens.skip(n), closed);
                        }
                    }
                }
            },
            TokenKind::Punct(sign, _) => {
                if let Some(moved) = extract::move_to(source, p, t.open.end) {
                    lemma_walk_without_slash(
                        source,
                        tokens.skip(1),
                        extract::mark(moved, 1, true),
                    );
                }
            },
            _ => {
                if let Some(passed) = extract::pass(source, p, t.open) {
                    lemma_walk_without_slash(
                        source,
                        tokens.skip(1),
                        extract::mark(passed, 1, true),
                    );
                }
            },
        }
    }
}

/// A source text without slashes has no comments, and all its tokens are kept.
pub proof fn law_without_slash(source: Seq<char>, tokens: Seq<TokenView>)
    requires
        !source.contains('/'),
    ensures
        extract::walk(source, tokens, extract::start()) matches Some(q) ==> {
            &&& q.comments == Map::<HashLineColumn, Seq<CommentView>>::empty()
            &&& q.keep == Seq::new(tokens.len(), |i: int| true)
        },
{
    assert forall|i: int| 0 <= i < tokens.len() implies ((
    #[trigger] tokens[i]).kind matches TokenKind::Punct(sign, _) ==> extract::is_doc_comment(
        source,
        sign,
        tokens[i].open,
    ) != Some(true)) by {
        if let Some(o) = extract::offset(source, tokens[i].open.start) {
            lemma_slice_without_slash(source, o, o + 1);
            assert(seq!['/'].contains(seq!['/'][0]));
        }
    }
    lemma_walk_without_slash(source, tokens, extract::start());
    law_all_kept(source, tokens, extract::start());
    if let Some(q) = extract::walk(source, tokens, extract::start()) {
        assert(q.keep =~= Seq::new(tokens.len(), |i: int| true));
    }
}

} // verus!
