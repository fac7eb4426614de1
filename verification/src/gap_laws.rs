//! What an extraction finds before a token, over the tokens and their kinds.
use vstd::prelude::*;
use crate::blank_laws;
use crate::comment::{self, CommentView};
use crate::extract::{self, Progress};
use crate::location::{Extent, HashLineColumn, LineColumn};
use crate::stop_laws;
use crate::stops::{self, Stop};
use crate::text;
use crate::tokens::{self, TokenKind, TokenView};

verus! {

/// A token, or the closing delimiter of a group.
pub struct Place {
    /// The token, as a position in the list.
    pub index: int,
    pub closing: bool,
}

/// There is such a token in `tokens`, and it is kept.
pub open spec fn is_place(tokens: Seq<TokenView>, keep: Seq<bool>, x: Place) -> bool {
    &&& 0 <= x.index < tokens.len()
    &&& keep[x.index]
    &&& x.closing ==> tokens[x.index].kind is Group
}

/// Where the token or the delimiter stands.
pub open spec fn extent(tokens: Seq<TokenView>, x: Place) -> Extent {
    if x.closing {
        tokens[x.index].close
    } else {
        tokens[x.index].open
    }
}

/// The comments before an identifier, a literal and a delimiter are read, those
/// before punctuation are not.
pub open spec fn is_read(tokens: Seq<TokenView>, x: Place) -> bool {
    match tokens[x.index].kind {
        TokenKind::Ident => true,
        TokenKind::Literal => true,
        TokenKind::Group(_) => true,
        TokenKind::Punct(_, _) => false,
    }
}

/// The position in the list that a token stands at, or that a group ends before.
pub open spec fn edge(tokens: Seq<TokenView>, x: Place) -> int {
    if x.closing {
        x.index + 1 + tokens[x.index].size
    } else {
        x.index
    }
}

/// `x` comes before `y` in the text: the tokens stand in their order, and a group
/// closes behind what is in it and before what follows.
pub open spec fn comes_before(tokens: Seq<TokenView>, x: Place, y: Place) -> bool {
    ||| edge(tokens, x) < edge(tokens, y)
    ||| edge(tokens, x) == edge(tokens, y) && x.closing && (!y.closing || x.index > y.index)
}

/// A kept token or delimiter between `x` and `y`.
pub open spec fn is_between(
    tokens: Seq<TokenView>,
    keep: Seq<bool>,
    x: Place,
    z: Place,
    y: Place,
) -> bool {
    is_place(tokens, keep, z) && comes_before(tokens, x, z) && comes_before(tokens, z, y)
}

/// `x` is the last kept token or delimiter before `y`.
pub open spec fn is_directly_before(
    tokens: Seq<TokenView>,
    keep: Seq<bool>,
    x: Place,
    y: Place,
) -> bool {
    &&& is_place(tokens, keep, x)
    &&& comes_before(tokens, x, y)
    &&& forall|z: Place| !#[trigger] is_between(tokens, keep, x, z, y)
}

/// No kept token stands before `y`.
pub open spec fn is_first(tokens: Seq<TokenView>, keep: Seq<bool>, y: Place) -> bool {
    forall|z: Place| #[trigger] is_place(tokens, keep, z) ==> !comes_before(tokens, z, y)
}

/// No delimiter or token behind `y` that is read starts where `y` does.
pub open spec fn is_last_at_start(tokens: Seq<TokenView>, keep: Seq<bool>, y: Place) -> bool {
    forall|z: Place| #[trigger]
        is_place(tokens, keep, z) && is_read(tokens, z) && comes_before(tokens, y, z) ==> extent(
            tokens,
            z,
        ).start != extent(tokens, y).start
}

/// The text before `y` starts at the byte `from`: behind the token or delimiter
/// before it, or at `first`, if there is none.
pub open spec fn is_gap_start(
    source: Seq<char>,
    tokens: Seq<TokenView>,
    keep: Seq<bool>,
    first: int,
    y: Place,
    from: int,
) -> bool {
    ||| is_first(tokens, keep, y) && from == first
    ||| exists|x: Place| #[trigger]
        is_directly_before(tokens, keep, x, y) && extract::offset(source, extent(tokens, x).end)
            == Some(from)
}

/// `s` is the text before `y`: from behind the token or delimiter before it up to
/// its own start.
pub open spec fn stands_before(
    source: Seq<char>,
    tokens: Seq<TokenView>,
    keep: Seq<bool>,
    first: int,
    y: Place,
    s: Seq<char>,
) -> bool {
    exists|from: int, to: int| #[trigger]
        text::slice(source, from, to) == Some(s) && is_gap_start(
            source,
            tokens,
            keep,
            first,
            y,
            from,
        ) && extract::offset(source, extent(tokens, y).start) == Some(to)
}

/// The stop at a place.
spec fn stop_at(tokens: Seq<TokenView>, x: Place) -> Stop {
    Stop { at: extent(tokens, x), reads: is_read(tokens, x) }
}

spec fn is_laid(
    tokens: Seq<TokenView>,
    keep: Seq<bool>,
    x: Place,
    stop: Stop,
    lo: int,
    hi: int,
) -> bool {
    &&& is_place(tokens, keep, x)
    &&& lo <= x.index < hi
    &&& edge(tokens, x) <= hi
    &&& stop == stop_at(tokens, x)
}

/// The places from `lo` up to `hi` in order, and their stops.
#[verifier::opaque]
spec fn is_layout(
    tokens: Seq<TokenView>,
    keep: Seq<bool>,
    list: Seq<Place>,
    sts: Seq<Stop>,
    lo: int,
    hi: int,
) -> bool {
    &&& list.len() == sts.len()
    &&& forall|k: int|
        0 <= k < list.len() ==> is_laid(tokens, keep, #[trigger] list[k], sts[k], lo, hi)
    &&& forall|i: int, j: int|
        0 <= i < j < list.len() ==> comes_before(tokens, #[trigger] list[i], #[trigger] list[j])
    &&& forall|x: Place| #[trigger]
        is_place(tokens, keep, x) && lo <= x.index < hi ==> list.contains(x)
}

proof fn lemma_layout_concat(
    tokens: Seq<TokenView>,
    keep: Seq<bool>,
    a: Seq<Place>,
    s: Seq<Stop>,
    b: Seq<Place>,
    t: Seq<Stop>,
    lo: int,
    mid: int,
    hi: int,
)
    requires
        is_layout(tokens, keep, a, s, lo, mid),
        is_layout(tokens, keep, b, t, mid, hi),
        lo <= mid <= hi,
    ensures
        is_layout(tokens, keep, a + b, s + t, lo, hi),
{
    reveal(is_layout);
    let c = a + b;
    assert forall|k: int| 0 <= k < c.len() implies is_laid(
        tokens,
        keep,
        #[trigger] c[k],
        (s + t)[k],
        lo,
        hi,
    ) by {
        if k < a.len() {
            assert(c[k] == a[k]);
        } else {
            assert(c[k] == b[k - a.len()]);
        }
    }
    assert forall|i: int, j: int| 0 <= i < j < c.len() implies comes_before(
        tokens,
        #[trigger] c[i],
        #[trigger] c[j],
    ) by {
        if j < a.len() {
            assert(c[i] == a[i] && c[j] == a[j]);
        } else if i >= a.len() {
            assert(c[i] == b[i - a.len()] && c[j] == b[j - a.len()]);
        } else {
            assert(is_laid(tokens, keep, a[i], s[i], lo, mid));
            assert(is_laid(tokens, keep, b[j - a.len()], t[j - a.len()], mid, hi));
        }
    }
    assert forall|x: Place| #[trigger]
        is_place(tokens, keep, x) && lo <= x.index < hi implies c.contains(x) by {
        if x.index < mid {
            assert(a.contains(x));
            let k = choose|k: int| 0 <= k < a.len() && a[k] == x;
            assert(c[k] == x);
        } else {
            assert(b.contains(x));
            let k = choose|k: int| 0 <= k < b.len() && b[k] == x;
            assert(c[a.len() + k] == x);
        }
    }
}

proof fn lemma_layout_leaf(tokens: Seq<TokenView>, keep: Seq<bool>, i: int)
    requires
        0 <= i < tokens.len(),
        keep[i],
        tokens[i].kind !is Group,
    ensures
        is_layout(
            tokens,
            keep,
            seq![Place { index: i, closing: false }],
            seq![Stop { at: tokens[i].open, reads: tokens[i].kind !is Punct }],
            i,
            i + 1,
        ),
{
    reveal(is_layout);
    let x = Place { index: i, closing: false };
    let list = seq![x];
    assert(is_laid(tokens, keep, list[0], stop_at(tokens, x), i, i + 1));
    assert forall|z: Place| #[trigger]
        is_place(tokens, keep, z) && i <= z.index < i + 1 implies list.contains(z) by {
        assert(list[0] == z);
    }
}

proof fn lemma_layout_group(
    tokens: Seq<TokenView>,
    keep: Seq<bool>,
    inner: Seq<Place>,
    s: Seq<Stop>,
    i: int,
)
    requires
        0 <= i < tokens.len(),
        keep[i],
        tokens[i].kind is Group,
        is_layout(tokens, keep, inner, s, i + 1, i + 1 + tokens[i].size),
    ensures
        is_layout(
            tokens,
            keep,
            seq![Place { index: i, closing: false }] + inner + seq![
                Place { index: i, closing: true },
            ],
            seq![Stop { at: tokens[i].open, reads: true }] + s + seq![
                Stop { at: tokens[i].close, reads: true },
            ],
            i,
            i + 1 + tokens[i].size,
        ),
{
    reveal(is_layout);
    let open = Place { index: i, closing: false };
    let close = Place { index: i, closing: true };
    let c = seq![open] + inner + seq![close];
    let t = seq![stop_at(tokens, open)] + s + seq![stop_at(tokens, close)];
    let hi = i + 1 + tokens[i].size;
    let last = c.len() - 1;
    assert(c[0] == open && c[last] == close);
    assert(t[0] == stop_at(tokens, open) && t[last] == stop_at(tokens, close));
    assert forall|k: int| 0 < k < last implies c[k] == inner[k - 1] && t[k] == s[k - 1] && is_laid(
        tokens,
        keep,
        #[trigger] c[k],
        t[k],
        i + 1,
        hi,
    ) by {
        assert(is_laid(tokens, keep, inner[k - 1], s[k - 1], i + 1, hi));
    }
    assert forall|k: int| 0 <= k < c.len() implies is_laid(
        tokens,
        keep,
        #[trigger] c[k],
        t[k],
        i,
        hi,
    ) by {
        if 0 < k < last {
            assert(is_laid(tokens, keep, c[k], t[k], i + 1, hi));
        }
    }
    assert forall|a: int, b: int| 0 <= a < b < c.len() implies comes_before(
        tokens,
        #[trigger] c[a],
        #[trigger] c[b],
    ) by {
        if 0 < a && b < last {
            assert(c[a] == inner[a - 1] && c[b] == inner[b - 1]);
        } else if a == 0 && b < last {
            assert(is_laid(tokens, keep, c[b], t[b], i + 1, hi));
        } else if 0 < a {
            assert(is_laid(tokens, keep, c[a], t[a], i + 1, hi));
        }
    }
    assert forall|x: Place| #[trigger]
        is_place(tokens, keep, x) && i <= x.index < hi implies c.contains(x) by {
        if x.index > i {
            assert(inner.contains(x));
            let k = choose|k: int| 0 <= k < inner.len() && inner[k] == x;
            assert(c[k + 1] == x);
        } else if x.closing {
            assert(c[last] == x);
        } else {
            assert(c[0] == x);
        }
    }
}

proof fn lemma_layout_nothing(tokens: Seq<TokenView>, keep: Seq<bool>, lo: int, hi: int)
    requires
        forall|i: int| lo <= i < hi ==> !#[trigger] keep[i],
    ensures
        is_layout(tokens, keep, Seq::empty(), Seq::empty(), lo, hi),
{
    reveal(is_layout);
}

/// The stops of the tokens from `lo` up to `hi` are those of their places in order.
proof fn lemma_layout(
    source: Seq<char>,
    tokens: Seq<TokenView>,
    keep: Seq<bool>,
    lo: int,
    hi: int,
) -> (list: Seq<Place>)
    requires
        tokens::are_nested(tokens),
        0 <= lo <= hi <= tokens.len(),
        keep.len() == tokens.len(),
        tokens::ends_within(tokens, lo, hi),
        keep.subrange(lo, hi) == stops::marks(source, tokens.subrange(lo, hi)),
    ensures
        is_layout(tokens, keep, list, stops::stops(source, tokens.subrange(lo, hi)), lo, hi),
    decreases hi - lo,
{
    let part = tokens.subrange(lo, hi);
    let marks = stops::marks(source, part);
    if lo == hi {
        lemma_layout_nothing(tokens, keep, lo, hi);
        Seq::empty()
    } else {
        let t = part[0];
        let n = tokens::tree_len(part);
        assert(t == tokens[lo]);
        extract::lemma_run_before(part.skip(1), t.open.end);
        let m = stops::doc_len(part);
        assert(marks[0] == keep[lo]);
        if stops::is_doc(source, t) {
            let rest = part.skip(m);
            assert(rest =~= tokens.subrange(lo + m, hi));
            assert forall|i: int| lo <= i < lo + m implies !#[trigger] keep[i] by {
                assert(marks[i - lo] == keep[i]);
            }
            lemma_layout_nothing(tokens, keep, lo, lo + m);
            blank_laws::lemma_marks_len(source, rest);
            assert(keep.subrange(lo + m, hi) =~= marks.skip(m));
            assert(marks.skip(m) =~= stops::marks(source, rest));
            let list = lemma_layout(source, tokens, keep, lo + m, hi);
            let sts = stops::stops(source, rest);
            lemma_layout_concat(
                tokens,
                keep,
                Seq::empty(),
                Seq::empty(),
                list,
                sts,
                lo,
                lo + m,
                hi,
            );
            assert(Seq::empty() + list =~= list);
            assert(Seq::empty() + sts =~= sts);
            list
        } else if t.kind is Group {
            let inside = part.subrange(1, n);
            let rest = part.skip(n);
            assert(n == 1 + t.size);
            assert(inside =~= tokens.subrange(lo + 1, lo + n));
            assert(rest =~= tokens.subrange(lo + n, hi));
            blank_laws::lemma_marks_len(source, inside);
            blank_laws::lemma_marks_len(source, rest);
            let mi = stops::marks(source, inside);
            let mr = stops::marks(source, rest);
            assert(marks =~= seq![true] + mi + mr);
            assert(keep.subrange(lo + 1, lo + n) =~= marks.subrange(1, n));
            assert(marks.subrange(1, n) =~= mi);
            assert(keep.subrange(lo + n, hi) =~= marks.skip(n));
            assert(marks.skip(n) =~= mr);
            let a = lemma_layout(source, tokens, keep, lo + 1, lo + n);
            let b = lemma_layout(source, tokens, keep, lo + n, hi);
            let sa = stops::stops(source, inside);
            let sb = stops::stops(source, rest);
            lemma_layout_group(tokens, keep, a, sa, lo);
            let list = seq![Place { index: lo, closing: false }] + a + seq![
                Place { index: lo, closing: true },
            ];
            let sts = seq![Stop { at: t.open, reads: true }] + sa + seq![
                Stop { at: t.close, reads: true },
            ];
            lemma_layout_concat(tokens, keep, list, sts, b, sb, lo, lo + n, hi);
            list + b
        } else {
            let rest = part.skip(1);
            assert(rest =~= tokens.subrange(lo + 1, hi));
            blank_laws::lemma_marks_len(source, rest);
            assert(keep.subrange(lo + 1, hi) =~= marks.skip(1));
            assert(marks.skip(1) =~= stops::marks(source, rest));
            lemma_layout_leaf(tokens, keep, lo);
            let list = seq![Place { index: lo, closing: false }];
            let sts = seq![Stop { at: t.open, reads: t.kind !is Punct }];
            let b = lemma_layout(source, tokens, keep, lo + 1, hi);
            lemma_layout_concat(
                tokens,
                keep,
                list,
                sts,
                b,
                stops::stops(source, rest),
                lo,
                lo + 1,
                hi,
            );
            list + b
        }
    }
}

/// The gap before the stop at `k` is that before its place.
proof fn lemma_gap_start(
    source: Seq<char>,
    tokens: Seq<TokenView>,
    keep: Seq<bool>,
    list: Seq<Place>,
    sts: Seq<Stop>,
    first: int,
    k: int,
    from: int,
)
    requires
        is_layout(tokens, keep, list, sts, 0, tokens.len() as int),
        0 <= k < list.len(),
        k > 0 ==> extract::offset(source, sts[k - 1].at.end) is Some,
    ensures
        is_gap_start(source, tokens, keep, first, list[k], from) <==> from == stop_laws::gap_from(
            source,
            sts,
            first,
            k,
        ),
{
    reveal(is_layout);
    let y = list[k];
    let g = stop_laws::gap_from(source, sts, first, k);
    assert(is_laid(tokens, keep, list[k], sts[k], 0, tokens.len() as int));
    if k == 0 {
        assert forall|z: Place| #[trigger] is_place(tokens, keep, z) implies !comes_before(
            tokens,
            z,
            y,
        ) by {
            assert(list.contains(z));
            let m = choose|m: int| 0 <= m < list.len() && list[m] == z;
            assert(m > 0 ==> comes_before(tokens, list[0], list[m]));
        }
        assert(is_first(tokens, keep, y));
    } else {
        let x = list[k - 1];
        assert(is_laid(tokens, keep, x, sts[k - 1], 0, tokens.len() as int));
        assert(comes_before(tokens, list[k - 1], list[k]));
        assert(is_place(tokens, keep, x));
        assert forall|z: Place| !#[trigger] is_between(tokens, keep, x, z, y) by {
            if is_between(tokens, keep, x, z, y) {
                assert(list.contains(z));
                let m = choose|m: int| 0 <= m < list.len() && list[m] == z;
                assert(m < k - 1 ==> comes_before(tokens, list[m], list[k - 1]));
                assert(m > k ==> comes_before(tokens, list[k], list[m]));
            }
        }
        assert(is_directly_before(tokens, keep, x, y));
    }
    if is_gap_start(source, tokens, keep, first, y, from) {
        if is_first(tokens, keep, y) {
            assert(k > 0 ==> comes_before(tokens, list[k - 1], list[k]));
        } else {
            let w = choose|w: Place| #[trigger]
                is_directly_before(tokens, keep, w, y) && extract::offset(
                    source,
                    extent(tokens, w).end,
                ) == Some(from);
            assert(list.contains(w));
            let m = choose|m: int| 0 <= m < list.len() && list[m] == w;
            assert(m > k ==> comes_before(tokens, list[k], list[m]));
            if m < k - 1 {
                assert(comes_before(tokens, list[m], list[k - 1]));
                assert(is_between(tokens, keep, w, list[k - 1], y));
            }
            assert(m == k - 1);
        }
    }
}

/// The stops that are visited stand in the text.
proof fn lemma_visited(source: Seq<char>, p: Progress, list: Seq<Stop>, i: int)
    requires
        stops::visit_all(source, p, list) is Some,
        0 <= i < list.len(),
    ensures
        extract::offset(source, list[i].at.end) is Some,
    decreases list.len(),
{
    if i > 0 {
        let next = stops::visit(source, p, list[0]).unwrap();
        assert(list.drop_first()[i - 1] == list[i]);
        lemma_visited(source, next, list.drop_first(), i - 1);
    }
}

/// The marks of the tokens of a walk.
pub open spec fn kept_of(source: Seq<char>, tokens: Seq<TokenView>, p: Progress) -> Seq<bool> {
    extract::walk(source, tokens, p).unwrap().keep.skip(p.keep.len() as int)
}

/// The marks are those of the tokens, each with its own.
pub proof fn lemma_kept_of(source: Seq<char>, tokens: Seq<TokenView>, p: Progress)
    requires
        extract::walk(source, tokens, p) is Some,
    ensures
        kept_of(source, tokens, p) == stops::marks(source, tokens),
        stops::marks(source, tokens).len() == tokens.len(),
        stops::visit_all(source, p, stops::stops(source, tokens)) is Some,
{
    stops::law_walk_stops(source, tokens, p);
    blank_laws::lemma_marks_len(source, tokens);
    assert(kept_of(source, tokens, p) =~= stops::marks(source, tokens));
}

proof fn lemma_whole_layout(source: Seq<char>, tokens: Seq<TokenView>) -> (list: Seq<Place>)
    requires
        tokens::are_nested(tokens),
    ensures
        is_layout(
            tokens,
            stops::marks(source, tokens),
            list,
            stops::stops(source, tokens),
            0,
            tokens.len() as int,
        ),
{
    let keep = stops::marks(source, tokens);
    blank_laws::lemma_marks_len(source, tokens);
    assert(tokens.subrange(0, tokens.len() as int) =~= tokens);
    assert(keep.subrange(0, tokens.len() as int) =~= keep);
    lemma_layout(source, tokens, keep, 0, tokens.len() as int)
}

/// Of every identifier, every literal and both delimiters of every group that is no
/// part of a doc comment, the text between the token or delimiter before it and its
/// own start is read, and if comments stand there, they have their entry at its
/// start. The entry stays, unless what is read later starts at the same position.
pub proof fn law_before_token(source: Seq<char>, tokens: Seq<TokenView>, p: Progress, y: Place)
    requires
        extract::walk(source, tokens, p) is Some,
        tokens::are_nested(tokens),
        is_place(tokens, kept_of(source, tokens, p), y),
        tokens[y.index].kind !is Punct,
    ensures
        exists|s: Seq<char>| #[trigger]
            stands_before(source, tokens, kept_of(source, tokens, p), p.last, y, s),
        forall|s: Seq<char>| #[trigger]
            stands_before(source, tokens, kept_of(source, tokens, p), p.last, y, s) ==> (
            comment::gap(s) matches Some(c) && (c.len() > 0 && is_last_at_start(
                tokens,
                kept_of(source, tokens, p),
                y,
            ) ==> {
                let found = extract::walk(source, tokens, p).unwrap().comments;
                let at = HashLineColumn(extent(tokens, y).start);
                found.contains_key(at) && found[at] == c
            })),
{
    reveal(is_layout);
    let keep = kept_of(source, tokens, p);
    let sts = stops::stops(source, tokens);
    let hi = tokens.len() as int;
    lemma_kept_of(source, tokens, p);
    let list = lemma_whole_layout(source, tokens);
    assert(list.contains(y));
    let k = choose|k: int| 0 <= k < list.len() && list[k] == y;
    assert(is_laid(tokens, keep, list[k], sts[k], 0, hi));
    stop_laws::law_every_gap(source, tokens, p, k);
    if k > 0 {
        lemma_visited(source, p, sts, k - 1);
    }
    let from = stop_laws::gap_from(source, sts, p.last, k);
    let to = extract::offset(source, extent(tokens, y).start).unwrap();
    let s = stop_laws::gap_text(source, sts, p.last, k).unwrap();
    lemma_gap_start(source, tokens, keep, list, sts, p.last, k, from);
    assert(text::slice(source, from, to) == Some(s));
    assert(stands_before(source, tokens, keep, p.last, y, s));
    assert forall|u: Seq<char>| #[trigger]
        stands_before(source, tokens, keep, p.last, y, u) implies u == s by {
        let (f, t) = choose|f: int, t: int| #[trigger]
            text::slice(source, f, t) == Some(u) && is_gap_start(
                source,
                tokens,
                keep,
                p.last,
                y,
                f,
            ) && extract::offset(source, extent(tokens, y).start) == Some(t);
        lemma_gap_start(source, tokens, keep, list, sts, p.last, k, f);
    }
    if is_last_at_start(tokens, keep, y) {
        assert forall|j: int| k < j < sts.len() && (#[trigger] sts[j]).reads implies stop_laws::key(
            sts[j],
        ) != stop_laws::key(sts[k]) by {
            assert(is_laid(tokens, keep, list[j], sts[j], 0, hi));
            assert(comes_before(tokens, list[k], list[j]));
        }
        assert(stop_laws::is_last_there(sts, k));
    }
}

/// The comments `c` stand before a token or delimiter that starts at `at` and is no
/// punctuation.
pub open spec fn are_before_token(
    source: Seq<char>,
    tokens: Seq<TokenView>,
    keep: Seq<bool>,
    first: int,
    at: LineColumn,
    c: Seq<CommentView>,
) -> bool {
    exists|y: Place, s: Seq<char>| #[trigger]
        stands_before(source, tokens, keep, first, y, s) && is_place(tokens, keep, y)
            && tokens[y.index].kind !is Punct && extent(tokens, y).start == at && comment::gap(s)
            == Some(c)
}

/// Every entry was there before, or holds the comments that stand before an
/// identifier, a literal or a delimiter which starts at its position.
pub proof fn law_entry_of_token(
    source: Seq<char>,
    tokens: Seq<TokenView>,
    p: Progress,
    at: LineColumn,
)
    requires
        extract::walk(source, tokens, p) is Some,
        tokens::are_nested(tokens),
        extract::walk(source, tokens, p).unwrap().comments.contains_key(HashLineColumn(at)),
    ensures
        ({
            let c = extract::walk(source, tokens, p).unwrap().comments[HashLineColumn(at)];
            ||| p.comments.contains_key(HashLineColumn(at)) && p.comments[HashLineColumn(at)] == c
            ||| c.len() > 0 && are_before_token(
                source,
                tokens,
                kept_of(source, tokens, p),
                p.last,
                at,
                c,
            )
        }),
{
    reveal(is_layout);
    let keep = kept_of(source, tokens, p);
    let sts = stops::stops(source, tokens);
    let hi = tokens.len() as int;
    let k = HashLineColumn(at);
    let c = extract::walk(source, tokens, p).unwrap().comments[k];
    lemma_kept_of(source, tokens, p);
    let list = lemma_whole_layout(source, tokens);
    stop_laws::law_every_entry(source, tokens, p, k);
    if !(p.comments.contains_key(k) && p.comments[k] == c) {
        let i = choose|i: int| #[trigger]
            stop_laws::is_gap(source, sts, p.last, i, c) && stop_laws::key(sts[i]) == k;
        assert(is_laid(tokens, keep, list[i], sts[i], 0, hi));
        if i > 0 {
            lemma_visited(source, p, sts, i - 1);
        }
        let y = list[i];
        let from = stop_laws::gap_from(source, sts, p.last, i);
        let to = extract::offset(source, extent(tokens, y).start).unwrap();
        let s = stop_laws::gap_text(source, sts, p.last, i).unwrap();
        lemma_gap_start(source, tokens, keep, list, sts, p.last, i, from);
        assert(text::slice(source, from, to) == Some(s));
        assert(stands_before(source, tokens, keep, p.last, y, s));
    }
}

/// The tokens and delimiters that are kept stand in the text, between characters, one
/// behind the other, and those that are read have only complete comments before
/// them, with text without slashes between these.
pub open spec fn is_readable(
    source: Seq<char>,
    tokens: Seq<TokenView>,
    keep: Seq<bool>,
    first: int,
    y: Place,
) -> bool {
    &&& stop_laws::is_placed(source, extent(tokens, y).start)
    &&& stop_laws::is_placed(source, extent(tokens, y).end)
    &&& forall|from: int| #[trigger]
        is_gap_start(source, tokens, keep, first, y, from) ==> from <= extract::offset(
            source,
            extent(tokens, y).start,
        ).unwrap()
    &&& tokens[y.index].kind !is Punct ==> forall|s: Seq<char>| #[trigger]
        stands_before(source, tokens, keep, first, y, s) ==> stop_laws::is_complete(s)
}

/// Comments can be extracted wherever the tokens stand in the text in order and
/// complete comments stand before those that are read.
pub proof fn law_extracts(source: Seq<char>, tokens: Seq<TokenView>, p: Progress)
    requires
        tokens::are_nested(tokens),
        stop_laws::are_signs_placed(source, tokens),
        stop_laws::is_boundary(source, p.last),
        forall|y: Place| #[trigger]
            is_place(tokens, stops::marks(source, tokens), y) ==> is_readable(
                source,
                tokens,
                stops::marks(source, tokens),
                p.last,
                y,
            ),
    ensures
        extract::walk(source, tokens, p) is Some,
{
    reveal(is_layout);
    let keep = stops::marks(source, tokens);
    let sts = stops::stops(source, tokens);
    let hi = tokens.len() as int;
    let list = lemma_whole_layout(source, tokens);
    assert forall|i: int| 0 <= i < sts.len() implies stop_laws::is_placed(
        source,
        (#[trigger] sts[i]).at.start,
    ) && stop_laws::is_placed(source, sts[i].at.end) && stop_laws::gap_from(source, sts, p.last, i)
        <= extract::offset(source, sts[i].at.start).unwrap() by {
        assert(is_laid(tokens, keep, list[i], sts[i], 0, hi));
        if i > 0 {
            assert(is_laid(tokens, keep, list[i - 1], sts[i - 1], 0, hi));
        }
        let from = stop_laws::gap_from(source, sts, p.last, i);
        lemma_gap_start(source, tokens, keep, list, sts, p.last, i, from);
    }
    assert(stop_laws::are_in_order(source, sts, p.last));
    assert forall|i: int| 0 <= i < sts.len() && (#[trigger] sts[i]).reads implies stop_laws::is_complete(
        stop_laws::gap_text(source, sts, p.last, i).unwrap(),
    ) by {
        assert(is_laid(tokens, keep, list[i], sts[i], 0, hi));
        assert(stop_laws::is_placed(source, sts[i].at.start));
        if i > 0 {
            assert(is_laid(tokens, keep, list[i - 1], sts[i - 1], 0, hi));
            assert(stop_laws::is_placed(source, sts[i - 1].at.end));
        }
        let from = stop_laws::gap_from(source, sts, p.last, i);
        let to = extract::offset(source, sts[i].at.start).unwrap();
        lemma_gap_start(source, tokens, keep, list, sts, p.last, i, from);
        let s = stop_laws::gap_text(source, sts, p.last, i).unwrap();
        assert(text::slice(source, from, to) == Some(s));
        assert(stands_before(source, tokens, keep, p.last, list[i], s));
    }
    stop_laws::law_placed(source, tokens, p);
}

} // verus!
