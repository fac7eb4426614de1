//! What is left of the tokens without those that are not kept.
use vstd::prelude::*;
use crate::doc_laws;
use crate::tokens::{self, TokenKind, TokenView};

verus! {

/// How many of the first `i` tokens are kept.
pub open spec fn kept_before(keep: Seq<bool>, i: int) -> int
    decreases i,
{
    if i <= 0 {
        0
    } else {
        kept_before(keep, i - 1) + (if keep[i - 1] {
            1int
        } else {
            0
        })
    }
}

/// `left` is what is left of the token `i`: the token itself, or a group of the same
/// kind that holds as many tokens as are kept of those in it.
pub open spec fn is_left_of(
    tokens: Seq<TokenView>,
    keep: Seq<bool>,
    i: int,
    left: TokenView,
) -> bool {
    match tokens[i].kind {
        TokenKind::Group(delimiter) => {
            &&& left.kind == TokenKind::Group(delimiter)
            &&& left.size == kept_before(keep, i + 1 + tokens[i].size) - kept_before(keep, i + 1)
        },
        _ => left == tokens[i],
    }
}

proof fn lemma_kept_grows(keep: Seq<bool>, i: int, j: int)
    requires
        0 <= i <= j,
    ensures
        kept_before(keep, i) <= kept_before(keep, j),
    decreases j - i,
{
    if i < j {
        lemma_kept_grows(keep, i, j - 1);
    }
}

spec fn is_left(
    tokens: Seq<TokenView>,
    keep: Seq<bool>,
    list: Seq<TokenView>,
    lo: int,
    hi: int,
) -> bool {
    &&& list.len() == kept_before(keep, hi) - kept_before(keep, lo)
    &&& forall|i: int|
        lo <= i < hi && #[trigger] keep[i] ==> is_left_of(
            tokens,
            keep,
            i,
            list[kept_before(keep, i) - kept_before(keep, lo)],
        )
}

proof fn lemma_left_concat(
    tokens: Seq<TokenView>,
    keep: Seq<bool>,
    a: Seq<TokenView>,
    b: Seq<TokenView>,
    lo: int,
    mid: int,
    hi: int,
)
    requires
        is_left(tokens, keep, a, lo, mid),
        is_left(tokens, keep, b, mid, hi),
        0 <= lo <= mid <= hi,
    ensures
        is_left(tokens, keep, a + b, lo, hi),
{
    assert forall|i: int| lo <= i < hi && #[trigger] keep[i] implies is_left_of(
        tokens,
        keep,
        i,
        (a + b)[kept_before(keep, i) - kept_before(keep, lo)],
    ) by {
        let k = kept_before(keep, i) - kept_before(keep, lo);
        lemma_kept_grows(keep, lo, i);
        if i < mid {
            lemma_kept_grows(keep, i + 1, mid);
            assert((a + b)[k] == a[k]);
        } else {
            lemma_kept_grows(keep, mid, i);
            lemma_kept_grows(keep, i + 1, hi);
            assert((a + b)[k] == b[k - a.len()]);
        }
    }
}

proof fn lemma_none_left(tokens: Seq<TokenView>, keep: Seq<bool>, lo: int, hi: int)
    requires
        0 <= lo <= hi,
        forall|i: int| lo <= i < hi ==> !#[trigger] keep[i],
    ensures
        is_left(tokens, keep, Seq::empty(), lo, hi),
    decreases hi - lo,
{
    if lo < hi {
        lemma_none_left(tokens, keep, lo, hi - 1);
        assert(!keep[hi - 1]);
    }
}

proof fn lemma_left(tokens: Seq<TokenView>, keep: Seq<bool>, lo: int, hi: int)
    requires
        tokens::are_nested(tokens),
        keep.len() == tokens.len(),
        0 <= lo <= hi <= tokens.len(),
        tokens::ends_within(tokens, lo, hi),
        forall|g: int| 0 <= g < tokens.len() ==> #[trigger] doc_laws::is_whole(tokens, keep, g),
    ensures
        is_left(
            tokens,
            keep,
            tokens::masked(tokens.subrange(lo, hi), keep.subrange(lo, hi)),
            lo,
            hi,
        ),
    decreases hi - lo,
{
    let part = tokens.subrange(lo, hi);
    let kept = keep.subrange(lo, hi);
    if lo < hi {
        let t = part[0];
        let n = tokens::tree_len(part);
        let mid = lo + n;
        assert(t == tokens[lo]);
        assert(kept[0] == keep[lo]);
        assert(part.skip(n) =~= tokens.subrange(mid, hi));
        assert(kept.skip(n) =~= keep.subrange(mid, hi));
        lemma_left(tokens, keep, mid, hi);
        let rest = tokens::masked(tokens.subrange(mid, hi), keep.subrange(mid, hi));
        assert(kept_before(keep, lo + 1) == kept_before(keep, lo) + (if keep[lo] {
            1int
        } else {
            0
        }));
        if !keep[lo] {
            assert(doc_laws::is_whole(tokens, keep, lo));
            lemma_none_left(tokens, keep, lo, mid);
            lemma_left_concat(tokens, keep, Seq::empty(), rest, lo, mid, hi);
            assert(Seq::<TokenView>::empty() + rest =~= rest);
        } else {
            match t.kind {
                TokenKind::Group(delimiter) => {
                    assert(part.subrange(1, n) =~= tokens.subrange(lo + 1, mid));
                    assert(kept.subrange(1, n) =~= keep.subrange(lo + 1, mid));
                    lemma_left(tokens, keep, lo + 1, mid);
                    let inner = tokens::masked(
                        tokens.subrange(lo + 1, mid),
                        keep.subrange(lo + 1, mid),
                    );
                    let group = tokens::grouped(delimiter, inner);
                    let first = group.take(1);
                    assert(group =~= first + inner);
                    assert(is_left(tokens, keep, first, lo, lo + 1));
                    lemma_left_concat(tokens, keep, first, inner, lo, lo + 1, mid);
                    lemma_left_concat(tokens, keep, group, rest, lo, mid, hi);
                },
                _ => {
                    assert(is_left(tokens, keep, seq![t], lo, lo + 1));
                    lemma_left_concat(tokens, keep, seq![t], rest, lo, mid, hi);
                },
            }
        }
    } else {
        assert(part =~= Seq::<TokenView>::empty());
    }
}

/// What is left are the tokens that are kept, all of them, in their order and as
/// they are. A group that is kept is a group still, of what is kept in it.
pub proof fn law_kept_tokens(tokens: Seq<TokenView>, keep: Seq<bool>)
    requires
        tokens::are_nested(tokens),
        keep.len() == tokens.len(),
        forall|g: int| 0 <= g < tokens.len() ==> #[trigger] doc_laws::is_whole(tokens, keep, g),
    ensures
        tokens::masked(tokens, keep).len() == kept_before(keep, tokens.len() as int),
        forall|i: int|
            0 <= i < tokens.len() && #[trigger] keep[i] ==> is_left_of(
                tokens,
                keep,
                i,
                tokens::masked(tokens, keep)[kept_before(keep, i)],
            ),
{
    let n = tokens.len() as int;
    assert(tokens.subrange(0, n) =~= tokens);
    assert(keep.subrange(0, n) =~= keep);
    lemma_left(tokens, keep, 0, n);
}

} // verus!
