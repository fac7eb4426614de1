//! Which tokens an extraction leaves out: the attributes that stand for doc comments.
use vstd::prelude::*;
use crate::blank_laws;
use crate::extract::{self, Progress};
use crate::gap_laws;
use crate::location::LineColumn;
use crate::stops;
use crate::text;
use crate::tokens::{self, TokenKind, TokenView};

verus! {

/// A number sign where the text has a slash.
pub open spec fn is_doc_sign(source: Seq<char>, t: TokenView) -> bool {
    &&& t.kind matches TokenKind::Punct(sign, _) && sign == '#'
    &&& extract::offset(source, t.open.start) matches Some(o) && text::slice(source, o, o + 1)
        == Some(seq!['/'])
}

/// The token `i`, or a group that it stands in, starts before `end`; `r` is that
/// token or group.
pub open spec fn is_started(tokens: Seq<TokenView>, end: LineColumn, r: int, i: int) -> bool {
    &&& r <= i
    &&& r < i ==> tokens[r].kind is Group && i < r + 1 + tokens[r].size
    &&& ({
        let start = tokens[r].open.start;
        start.line < end.line || (start.line == end.line && start.column < end.column)
    })
}

/// A run of tokens from the sign `d` on, without a gap up to `i`, is left out.
pub open spec fn is_run(
    source: Seq<char>,
    tokens: Seq<TokenView>,
    keep: Seq<bool>,
    d: int,
    i: int,
) -> bool {
    &&& 0 <= d <= i
    &&& is_doc_sign(source, tokens[d])
    &&& forall|j: int| d <= j < i ==> !#[trigger] keep[j]
}

/// The token `i` is a sign that stands for a doc comment, or part of what starts
/// within the doc comment.
pub open spec fn is_left_out(
    source: Seq<char>,
    tokens: Seq<TokenView>,
    keep: Seq<bool>,
    i: int,
) -> bool {
    exists|d: int| #[trigger]
        is_run(source, tokens, keep, d, i) && (d == i || exists|r: int|
            d < r && #[trigger] is_started(tokens, tokens[d].open.end, r, i))
}

/// A run ends before the token `i`: it starts behind the doc comment, or a group
/// that the doc comment stands in ends there.
pub open spec fn is_run_end(
    source: Seq<char>,
    tokens: Seq<TokenView>,
    keep: Seq<bool>,
    i: int,
) -> bool {
    exists|d: int| #[trigger]
        is_run(source, tokens, keep, d, i) && d < i && (!is_started(tokens, tokens[d].open.end, i, i)
            || exists|g: int|
            0 <= g < d && (#[trigger] tokens[g]).kind is Group && g + 1 + tokens[g].size == i)
}

/// A group that is left out is left out with all that is in it.
pub open spec fn is_whole(tokens: Seq<TokenView>, keep: Seq<bool>, g: int) -> bool {
    tokens[g].kind is Group && !keep[g] ==> forall|i: int|
        g < i < g + 1 + tokens[g].size ==> !#[trigger] keep[i]
}

/// The marks of the tokens from `lo` up to `hi`.
spec fn are_marked(
    source: Seq<char>,
    tokens: Seq<TokenView>,
    keep: Seq<bool>,
    lo: int,
    hi: int,
) -> bool {
    &&& forall|i: int| lo <= i < hi && keep[i] ==> !is_doc_sign(source, #[trigger] tokens[i])
    &&& forall|i: int| lo <= i < hi && !keep[i] ==> #[trigger] is_left_out(source, tokens, keep, i)
    &&& forall|i: int|
        lo < i < hi && keep[i] && !keep[i - 1] ==> #[trigger] is_run_end(source, tokens, keep, i)
    &&& lo < hi && !keep[hi - 1] ==> exists|d: int|
        lo <= d < hi && #[trigger] is_run(source, tokens, keep, d, hi)
    &&& forall|g: int| lo <= g < hi ==> #[trigger] is_whole(tokens, keep, g)
}

/// The token `i`, or a group from `lo` on that it stands in, starts before `end`.
spec fn is_begun(tokens: Seq<TokenView>, end: LineColumn, lo: int, i: int) -> bool {
    exists|r: int| lo <= r && #[trigger] is_started(tokens, end, r, i)
}

proof fn lemma_run(tokens: Seq<TokenView>, lo: int, hi: int, end: LineColumn)
    requires
        0 <= lo <= hi <= tokens.len(),
        tokens::are_nested(tokens),
        tokens::ends_within(tokens, lo, hi),
    ensures
        ({
            let m = extract::run_before(tokens.subrange(lo, hi), end);
            &&& 0 <= m <= hi - lo
            &&& forall|i: int|
                lo <= i < lo + m ==> #[trigger] is_begun(tokens, end, lo, i)
            &&& lo + m < hi ==> !is_started(tokens, end, lo + m, lo + m)
            &&& tokens::ends_within(tokens, lo, lo + m)
        }),
    decreases hi - lo,
{
    let part = tokens.subrange(lo, hi);
    let m = extract::run_before(part, end);
    extract::lemma_run_before(part, end);
    if lo < hi {
        assert(part[0] == tokens[lo]);
        if is_started(tokens, end, lo, lo) {
            let n = tokens::tree_len(part);
            assert(part.skip(n) =~= tokens.subrange(lo + n, hi));
            lemma_run(tokens, lo + n, hi, end);
            assert forall|k: int|
                lo <= k < lo + m && (#[trigger] tokens[k]).kind is Group implies k + 1
                + tokens[k].size <= lo + m by {
                if lo < k < lo + n {
                    assert(tokens::ends_within(tokens, lo + 1, lo + 1 + tokens[lo].size));
                }
            }
            assert forall|i: int| lo <= i < lo + m implies #[trigger] is_begun(
                tokens,
                end,
                lo,
                i,
            ) by {
                if i < lo + n {
                    assert(is_started(tokens, end, lo, i));
                } else {
                    assert(is_begun(tokens, end, lo + n, i));
                }
            }
        }
    }
}

proof fn lemma_marked_doc(source: Seq<char>, tokens: Seq<TokenView>, keep: Seq<bool>, lo: int, hi: int)
    requires
        0 <= lo < hi <= tokens.len(),
        tokens::are_nested(tokens),
        tokens::ends_within(tokens, lo, hi),
        is_doc_sign(source, tokens[lo]),
        ({
            let m = stops::doc_len(tokens.subrange(lo, hi));
            &&& 1 <= m <= hi - lo
            &&& forall|i: int| lo <= i < lo + m ==> !#[trigger] keep[i]
            &&& are_marked(source, tokens, keep, lo + m, hi)
        }),
    ensures
        are_marked(source, tokens, keep, lo, hi),
{
    let part = tokens.subrange(lo, hi);
    let m = stops::doc_len(part);
    let end = tokens[lo].open.end;
    assert(part.skip(1) =~= tokens.subrange(lo + 1, hi));
    lemma_run(tokens, lo + 1, hi, end);
    assert forall|i: int| lo <= i < hi && !keep[i] implies #[trigger] is_left_out(
        source,
        tokens,
        keep,
        i,
    ) by {
        if i < lo + m {
            assert(is_run(source, tokens, keep, lo, i));
            if i > lo {
                assert(is_begun(tokens, end, lo + 1, i));
            }
        }
    }
    assert(is_run(source, tokens, keep, lo, lo + m));
    assert forall|g: int| lo <= g < hi implies #[trigger] is_whole(tokens, keep, g) by {
        if g < lo + m && tokens[g].kind is Group {
            assert(g + 1 + tokens[g].size <= lo + m);
        }
    }
    assert forall|i: int| lo < i < hi && keep[i] && !keep[i - 1] implies #[trigger] is_run_end(
        source,
        tokens,
        keep,
        i,
    ) by {
        if i == lo + m {
            assert(is_run(source, tokens, keep, lo, i));
        }
    }
}

/// Two ranges, where the first does not end in a run or ends where a group does.
proof fn lemma_marked_concat(
    source: Seq<char>,
    tokens: Seq<TokenView>,
    keep: Seq<bool>,
    lo: int,
    mid: int,
    hi: int,
)
    requires
        0 <= lo < mid <= hi <= tokens.len(),
        keep[lo],
        are_marked(source, tokens, keep, lo, mid),
        are_marked(source, tokens, keep, mid, hi),
        mid == lo + 1 || (tokens[lo].kind is Group && lo + 1 + tokens[lo].size == mid),
    ensures
        are_marked(source, tokens, keep, lo, hi),
{
    assert forall|i: int| lo < i < hi && keep[i] && !keep[i - 1] implies #[trigger] is_run_end(
        source,
        tokens,
        keep,
        i,
    ) by {
        if i == mid {
            let d = choose|d: int| lo <= d < mid && #[trigger] is_run(source, tokens, keep, d, mid);
            assert(d != lo) by {
                if d == lo {
                    assert(!keep[lo]);
                }
            }
            assert(tokens[lo].kind is Group);
            assert(is_run(source, tokens, keep, d, i));
        }
    }
    if !keep[hi - 1] {
        if mid < hi {
            let d = choose|d: int| mid <= d < hi && #[trigger] is_run(source, tokens, keep, d, hi);
            assert(lo <= d);
        }
    }
}

proof fn lemma_marked_first(source: Seq<char>, tokens: Seq<TokenView>, keep: Seq<bool>, i: int, hi: int)
    requires
        0 <= i < hi <= tokens.len(),
        keep[i],
        !is_doc_sign(source, tokens[i]),
        are_marked(source, tokens, keep, i + 1, hi),
    ensures
        are_marked(source, tokens, keep, i, hi),
{
    assert(are_marked(source, tokens, keep, i, i + 1));
    lemma_marked_concat(source, tokens, keep, i, i + 1, hi);
}

proof fn lemma_marked(source: Seq<char>, tokens: Seq<TokenView>, keep: Seq<bool>, lo: int, hi: int)
    requires
        tokens::are_nested(tokens),
        0 <= lo <= hi <= tokens.len(),
        keep.len() == tokens.len(),
        tokens::ends_within(tokens, lo, hi),
        keep.subrange(lo, hi) == stops::marks(source, tokens.subrange(lo, hi)),
    ensures
        are_marked(source, tokens, keep, lo, hi),
    decreases hi - lo,
{
    let part = tokens.subrange(lo, hi);
    let marks = stops::marks(source, part);
    if lo < hi {
        let t = part[0];
        let n = tokens::tree_len(part);
        assert(t == tokens[lo]);
        extract::lemma_run_before(part.skip(1), t.open.end);
        let m = stops::doc_len(part);
        assert(marks[0] == keep[lo]);
        if stops::is_doc(source, t) {
            let rest = part.skip(m);
            assert(rest =~= tokens.subrange(lo + m, hi));
            assert forall|i: int| lo <= i < lo + m implies !#[trigger] keep[i] by {
                assert(marks[i - lo] == keep[i]);
            }
            blank_laws::lemma_marks_len(source, rest);
            assert(keep.subrange(lo + m, hi) =~= marks.skip(m));
            assert(marks.skip(m) =~= stops::marks(source, rest));
            lemma_marked(source, tokens, keep, lo + m, hi);
            lemma_marked_doc(source, tokens, keep, lo, hi);
        } else if t.kind is Group {
            let inside = part.subrange(1, n);
            let rest = part.skip(n);
            assert(n == 1 + t.size);
            assert(inside =~= tokens.subrange(lo + 1, lo + n));
            assert(rest =~= tokens.subrange(lo + n, hi));
            blank_laws::lemma_marks_len(source, inside);
            blank_laws::lemma_marks_len(source, rest);
            let mi = stops::marks(source, inside);
            let mr = stops::marks(source, rest);
            assert(marks =~= seq![true] + mi + mr);
            assert(keep.subrange(lo + 1, lo + n) =~= marks.subrange(1, n));
            assert(marks.subrange(1, n) =~= mi);
            assert(keep.subrange(lo + n, hi) =~= marks.skip(n));
            assert(marks.skip(n) =~= mr);
            lemma_marked(source, tokens, keep, lo + 1, lo + n);
            lemma_marked(source, tokens, keep, lo + n, hi);
            lemma_marked_first(source, tokens, keep, lo, lo + n);
            lemma_marked_concat(source, tokens, keep, lo, lo + n, hi);
        } else {
            let rest = part.skip(1);
            assert(rest =~= tokens.subrange(lo + 1, hi));
            blank_laws::lemma_marks_len(source, rest);
            assert(keep.subrange(lo + 1, hi) =~= marks.skip(1));
            assert(marks.skip(1) =~= stops::marks(source, rest));
            lemma_marked(source, tokens, keep, lo + 1, hi);
            lemma_marked_first(source, tokens, keep, lo, hi);
        }
    }
}

/// A token is kept unless it belongs to a doc comment. A kept number sign is not at
/// a slash of the text. What is not kept is such a sign or comes in an unbroken run
/// behind one and starts before that one ends, or is within a group that does. And
/// a run goes on as far as that holds, or to the end of the group around it. A group
/// that is not kept is left out whole.
pub proof fn law_left_out(source: Seq<char>, tokens: Seq<TokenView>, p: Progress, i: int)
    requires
        extract::walk(source, tokens, p) is Some,
        tokens::are_nested(tokens),
        0 <= i < tokens.len(),
    ensures
        gap_laws::kept_of(source, tokens, p).len() == tokens.len(),
        ({
            let keep = gap_laws::kept_of(source, tokens, p);
            &&& keep[i] ==> !is_doc_sign(source, tokens[i])
            &&& !keep[i] ==> is_left_out(source, tokens, keep, i)
            &&& i > 0 && keep[i] && !keep[i - 1] ==> is_run_end(source, tokens, keep, i)
            &&& is_whole(tokens, keep, i)
        }),
{
    let keep = gap_laws::kept_of(source, tokens, p);
    let hi = tokens.len() as int;
    gap_laws::lemma_kept_of(source, tokens, p);
    assert(tokens.subrange(0, hi) =~= tokens);
    assert(keep.subrange(0, hi) =~= keep);
    lemma_marked(source, tokens, keep, 0, hi);
}

} // verus!
