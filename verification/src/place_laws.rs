//! Where a position is in a text, and what an extraction from its start finds.
use vstd::prelude::*;
use vstd::utf8::*;
use crate::comment;
use crate::extract;
use crate::gap_laws::{self, Place};
use crate::location::{HashLineColumn, LineColumn};
use crate::tokens::{self, TokenView};

verus! {

/// How many line feeds there are.
pub open spec fn feeds(bytes: Seq<u8>) -> nat
    decreases bytes.len(),
{
    if bytes.len() == 0 {
        0
    } else {
        feeds(bytes.drop_last()) + (if bytes[bytes.len() - 1] == 10u8 {
            1nat
        } else {
            0
        })
    }
}

proof fn lemma_starts_len(bytes: Seq<u8>)
    requires
        bytes.len() > 0,
    ensures
        extract::line_starts(bytes).len() == 1 + feeds(bytes.drop_last()),
    decreases bytes.len(),
{
    let some = bytes.drop_last();
    if some.len() > 0 {
        lemma_starts_len(some);
        assert(some[some.len() - 1] == bytes[bytes.len() - 2]);
    } else {
        assert(extract::line_starts(some).len() == 0);
    }
}

/// The lines of the first bytes start where they do in the whole text.
proof fn lemma_starts_stay(x: Seq<u8>, y: Seq<u8>)
    ensures
        extract::line_starts(x).len() <= extract::line_starts(x + y).len(),
        forall|i: int|
            0 <= i < extract::line_starts(x).len() ==> #[trigger] extract::line_starts(x + y)[i]
                == extract::line_starts(x)[i],
    decreases y.len(),
{
    if y.len() == 0 {
        assert(x + y =~= x);
    } else {
        lemma_starts_stay(x, y.drop_last());
        assert((x + y).drop_last() =~= x + y.drop_last());
    }
}

/// A position is counted from the start of its line in bytes, and the line starts
/// behind as many line feeds as there are lines before it: `before` is the text up
/// to the line, `rest` the text from there on, which is not empty.
pub proof fn law_offset(source: Seq<char>, before: Seq<u8>, rest: Seq<u8>, at: LineColumn)
    requires
        encode_utf8(source) == before + rest,
        rest.len() > 0,
        before.len() > 0 ==> before[before.len() - 1] == 10u8,
        at.line == feeds(before) + 1,
        before.len() + at.column <= usize::MAX,
    ensures
        extract::offset(source, at) == Some(before.len() + at.column),
{
    let first = before.push(rest[0]);
    let more = rest.drop_first();
    assert(first + more =~= before + rest);
    assert(first.drop_last() =~= before);
    lemma_starts_len(first);
    lemma_starts_stay(first, more);
    let starts = extract::line_starts(first);
    assert(starts[starts.len() - 1] == before.len());
    assert(extract::line_starts(first + more)[at.line - 1] == before.len());
}

/// A line that the text does not have has no positions: lines are counted from one,
/// and a line starts where something is behind a line feed.
pub proof fn law_no_offset(source: Seq<char>, at: LineColumn)
    requires
        ({
            let bytes = encode_utf8(source);
            at.line == 0 || bytes.len() == 0 || at.line > 1 + feeds(bytes.drop_last())
        }),
    ensures
        extract::offset(source, at) is None,
{
    let bytes = encode_utf8(source);
    if bytes.len() > 0 {
        lemma_starts_len(bytes);
    }
}

/// From the start of a text, the comments before every identifier, literal and
/// delimiter are found, from the first byte on, and none are there that do not stand
/// before such a token.
pub proof fn law_from_start(source: Seq<char>, tokens: Seq<TokenView>)
    requires
        extract::walk(source, tokens, extract::start()) is Some,
        tokens::are_nested(tokens),
    ensures
        ({
            let q = extract::walk(source, tokens, extract::start()).unwrap();
            &&& q.keep.len() == tokens.len()
            &&& forall|y: Place, s: Seq<char>| #[trigger]
                gap_laws::stands_before(source, tokens, q.keep, 0, y, s) && gap_laws::is_place(
                    tokens,
                    q.keep,
                    y,
                ) && tokens[y.index].kind !is Punct ==> (comment::gap(s) matches Some(c) && (c.len()
                    > 0 && gap_laws::is_last_at_start(tokens, q.keep, y) ==> {
                    let at = HashLineColumn(gap_laws::extent(tokens, y).start);
                    q.comments.contains_key(at) && q.comments[at] == c
                }))
            &&& forall|at: LineColumn| #[trigger]
                q.comments.contains_key(HashLineColumn(at)) ==> q.comments[HashLineColumn(at)].len()
                    > 0 && gap_laws::are_before_token(
                    source,
                    tokens,
                    q.keep,
                    0,
                    at,
                    q.comments[HashLineColumn(at)],
                )
        }),
{
    let p = extract::start();
    let q = extract::walk(source, tokens, p).unwrap();
    gap_laws::lemma_kept_of(source, tokens, p);
    assert(gap_laws::kept_of(source, tokens, p) =~= q.keep);
    assert forall|y: Place, s: Seq<char>| #[trigger]
        gap_laws::stands_before(source, tokens, q.keep, 0, y, s) && gap_laws::is_place(
            tokens,
            q.keep,
            y,
        ) && tokens[y.index].kind !is Punct implies (comment::gap(s) matches Some(c) && (c.len() > 0
        && gap_laws::is_last_at_start(tokens, q.keep, y) ==> {
        let at = HashLineColumn(gap_laws::extent(tokens, y).start);
        q.comments.contains_key(at) && q.comments[at] == c
    })) by {
        gap_laws::law_before_token(source, tokens, p, y);
    }
    assert forall|at: LineColumn| #[trigger]
        q.comments.contains_key(HashLineColumn(at)) implies q.comments[HashLineColumn(at)].len()
        > 0 && gap_laws::are_before_token(
        source,
        tokens,
        q.keep,
        0,
        at,
        q.comments[HashLineColumn(at)],
    ) by {
        gap_laws::law_entry_of_token(source, tokens, p, at);
    }
}

} // verus!
