//! What is left of a source text without its comments.
use vstd::prelude::*;
use vstd::utf8::*;
use crate::comment::{self, CommentView};
use crate::comment_laws;
use crate::extract::{self, Progress};
use crate::location::{Extent, HashLineColumn, LineColumn};
use crate::stop_laws;
use crate::stops::{self, Stop};
use crate::text;
use crate::tokens::{self, TokenKind, TokenView};

verus! {

/// The character at `j` is part of a comment: of its delimiters or of its text.
/// The line feed behind a line comment is none.
pub open spec fn in_comment(s: Seq<char>, j: int) -> bool
    decreases s.len(),
{
    let k = comment::comment_start(s) as int;
    if k + 1 >= s.len() || j < k {
        false
    } else {
        let rest = s.skip(k + 2);
        if s[k + 1] == '/' {
            let n = text::find(rest, '\n') as int;
            proof {
                text::lemma_find(rest, '\n');
            }
            j < k + 2 + n || in_comment(rest.skip(n), j - (k + 2 + n))
        } else {
            proof {
                comment::lemma_block_end_bound(rest, 1);
            }
            match comment::block_end(rest, 1) {
                None => true,
                Some(e) => j < k + 4 + e || in_comment(rest.skip(e as int + 2), j - (k + 4 + e)),
            }
        }
    }
}

/// Where a comment could open, one has opened already or opens there.
proof fn lemma_opens_in_comment(s: Seq<char>, i: int)
    requires
        comment::opens_at(s, i),
    ensures
        in_comment(s, i),
    decreases s.len(),
{
    let k = comment::comment_start(s) as int;
    comment::lemma_comment_start(s);
    assert(k <= i);
    let rest = s.skip(k + 2);
    if s[k + 1] == '/' {
        let n = text::find(rest, '\n') as int;
        text::lemma_find(rest, '\n');
        let at = i - (k + 2 + n);
        if at >= 0 {
            let tail = rest.skip(n);
            assert(tail[at] == s[i]);
            assert(tail[at + 1] == s[i + 1]);
            lemma_opens_in_comment(tail, at);
        }
    } else {
        comment::lemma_block_end_bound(rest, 1);
        if let Some(e) = comment::block_end(rest, 1) {
            let at = i - (k + 4 + e);
            if at >= 0 {
                let tail = rest.skip(e as int + 2);
                assert(tail[at] == s[i]);
                assert(tail[at + 1] == s[i + 1]);
                lemma_opens_in_comment(tail, at);
            }
        }
    }
}

/// Where the gap before the stop `i` ends, or the text behind the last stop.
pub open spec fn gap_to(source: Seq<char>, list: Seq<Stop>, i: int) -> int {
    if i < list.len() {
        match extract::offset(source, list[i].at.start) {
            Some(o) => o,
            None => -1,
        }
    } else {
        source.len() as int
    }
}

/// The character at `j` stands in the gap before the stop `i`, in a comment.
pub open spec fn is_commented_at(source: Seq<char>, list: Seq<Stop>, i: int, j: int) -> bool {
    let a = stop_laws::gap_from(source, list, 0, i);
    let b = gap_to(source, list, i);
    0 <= a <= j < b <= source.len() && in_comment(source.subrange(a, b), j - a)
}

/// The character at `j` stands between the stops or behind them, in a comment.
pub open spec fn is_commented(source: Seq<char>, list: Seq<Stop>, j: int) -> bool {
    exists|i: int| 0 <= i <= list.len() && #[trigger] is_commented_at(source, list, i, j)
}

/// A text of one byte per character, with a space for each character of its
/// comments that is no line feed.
pub open spec fn blanked(source: Seq<char>, list: Seq<Stop>) -> Seq<char> {
    Seq::new(
        source.len(),
        |j: int|
            if source[j] != '\n' && is_commented(source, list, j) {
                ' '
            } else {
                source[j]
            },
    )
}

/// What is left of `tokens` without the trees whose first token is not kept. All
/// that is left stands where it stood.
pub open spec fn kept(tokens: Seq<TokenView>, keep: Seq<bool>) -> Seq<TokenView>
    decreases tokens.len(),
{
    if tokens.len() == 0 {
        Seq::empty()
    } else {
        let n = tokens::tree_len(tokens);
        let rest = kept(tokens.skip(n), keep.skip(n));
        if !keep[0] {
            rest
        } else {
            match tokens[0].kind {
                TokenKind::Group(_) => {
                    let inside = kept(tokens.subrange(1, n), keep.subrange(1, n));
                    seq![TokenView { size: inside.len(), ..tokens[0] }] + inside + rest
                },
                _ => seq![tokens[0]] + rest,
            }
        }
    }
}

/// All tokens marked to be kept.
pub open spec fn all_kept(n: nat) -> Seq<bool> {
    Seq::new(n, |i: int| true)
}

/// Each token has its mark.
pub proof fn lemma_marks_len(source: Seq<char>, tokens: Seq<TokenView>)
    ensures
        stops::marks(source, tokens).len() == tokens.len(),
    decreases tokens.len(),
{
    if tokens.len() > 0 {
        let t = tokens[0];
        let n = tokens::tree_len(tokens);
        extract::lemma_run_before(tokens.skip(1), t.open.end);
        lemma_marks_len(source, tokens.subrange(1, n));
        lemma_marks_len(source, tokens.skip(n));
        lemma_marks_len(source, tokens.skip(1));
        lemma_marks_len(source, tokens.skip(stops::doc_len(tokens)));
    }
}

/// A group in front of other tokens, by its parts.
proof fn lemma_group_parts(t: TokenView, inside: Seq<TokenView>, rest: Seq<TokenView>)
    requires
        t.kind is Group,
        t.size == inside.len(),
    ensures
        ({
            let all = seq![t] + inside + rest;
            &&& tokens::tree_len(all) == 1 + inside.len()
            &&& all.subrange(1, 1 + inside.len() as int) == inside
            &&& all.skip(1 + inside.len() as int) == rest
            &&& all[0] == t
        }),
{
    let all = seq![t] + inside + rest;
    assert(all.subrange(1, 1 + inside.len() as int) =~= inside);
    assert(all.skip(1 + inside.len() as int) =~= rest);
}

/// Taking tokens out first and keeping the rest is the same as taking them out.
proof fn lemma_masked_kept(tokens: Seq<TokenView>, keep: Seq<bool>)
    requires
        keep.len() == tokens.len(),
    ensures
        tokens::masked(kept(tokens, keep), all_kept(kept(tokens, keep).len())) == tokens::masked(
            tokens,
            keep,
        ),
    decreases tokens.len(),
{
    if tokens.len() > 0 {
        let n = tokens::tree_len(tokens);
        let rest = kept(tokens.skip(n), keep.skip(n));
        lemma_masked_kept(tokens.skip(n), keep.skip(n));
        if keep[0] {
            let all = kept(tokens, keep);
            let flags = all_kept(all.len());
            match tokens[0].kind {
                TokenKind::Group(_) => {
                    let inside = kept(tokens.subrange(1, n), keep.subrange(1, n));
                    let t = TokenView { size: inside.len(), ..tokens[0] };
                    lemma_masked_kept(tokens.subrange(1, n), keep.subrange(1, n));
                    lemma_group_parts(t, inside, rest);
                    let m = 1 + inside.len() as int;
                    assert(flags.subrange(1, m) =~= all_kept(inside.len()));
                    assert(flags.skip(m) =~= all_kept(rest.len()));
                },
                _ => {
                    assert(all.skip(1) =~= rest);
                    assert(flags.skip(1) =~= all_kept(rest.len()));
                },
            }
        }
    } else {
        assert(kept(tokens, keep) =~= tokens);
    }
}

/// The trees that stand within a doc comment are taken out with it.
proof fn lemma_kept_run(tokens: Seq<TokenView>, end: LineColumn, more: Seq<bool>)
    requires
        more.len() + extract::run_before(tokens, end) == tokens.len(),
    ensures
        ({
            let r = extract::run_before(tokens, end);
            kept(tokens, Seq::new(r as nat, |i: int| false) + more) == kept(tokens.skip(r), more)
        }),
    decreases tokens.len(),
{
    let r = extract::run_before(tokens, end);
    let keep = Seq::new(r as nat, |i: int| false) + more;
    extract::lemma_run_before(tokens, end);
    if tokens.len() == 0 || !crate::location::precedes(tokens[0].open.start, end) {
        assert(keep =~= more);
        assert(tokens.skip(0) =~= tokens);
    } else {
        let n = tokens::tree_len(tokens);
        let rest = tokens.skip(n);
        extract::lemma_run_before(rest, end);
        lemma_kept_run(rest, end, more);
        assert(keep.skip(n) =~= Seq::new((r - n) as nat, |i: int| false) + more);
        assert(rest.skip(r - n) =~= tokens.skip(r));
    }
}

/// No token stands for a doc comment in `blank` that does not in `source`, and each
/// that stands in the one stands in the other.
spec fn has_no_new_doc(source: Seq<char>, blank: Seq<char>) -> bool {
    &&& forall|t: TokenView| !stops::is_doc(source, t) ==> !#[trigger] stops::is_doc(blank, t)
    &&& forall|sign: char, at: Extent|
        extract::is_doc_comment(source, sign, at) is Some ==> (#[trigger] extract::is_doc_comment(
            blank,
            sign,
            at,
        )) is Some
}

/// Without the doc comments the stops are the same, and no token is taken out.
spec fn has_same_stops(source: Seq<char>, blank: Seq<char>, tokens: Seq<TokenView>) -> bool {
    let left = kept(tokens, stops::marks(source, tokens));
    &&& stops::stops(blank, left) == stops::stops(source, tokens)
    &&& stops::marks(blank, left) == all_kept(left.len())
    &&& stops::has_signs(source, tokens) ==> stops::has_signs(blank, left)
}

proof fn lemma_leaf_same_stops(source: Seq<char>, blank: Seq<char>, tokens: Seq<TokenView>)
    requires
        has_no_new_doc(source, blank),
        tokens.len() > 0,
        tokens[0].kind !is Group,
        !stops::is_doc(source, tokens[0]),
        has_same_stops(source, blank, tokens.skip(1)),
    ensures
        has_same_stops(source, blank, tokens),
{
    let keep = stops::marks(source, tokens);
    let more = stops::marks(source, tokens.skip(1));
    let rest = kept(tokens.skip(1), more);
    let left = kept(tokens, keep);
    assert(keep.skip(1) =~= more);
    assert(left == seq![tokens[0]] + rest);
    assert(left.skip(1) =~= rest);
    assert(!stops::is_doc(blank, tokens[0]));
    if let TokenKind::Punct(sign, _) = tokens[0].kind {
        assert(extract::is_doc_comment(source, sign, tokens[0].open) is Some
            ==> extract::is_doc_comment(blank, sign, tokens[0].open) is Some);
    }
    assert(seq![true] + all_kept(rest.len()) =~= all_kept(left.len()));
}

proof fn lemma_group_same_stops(source: Seq<char>, blank: Seq<char>, tokens: Seq<TokenView>)
    requires
        tokens.len() > 0,
        tokens[0].kind is Group,
        has_same_stops(source, blank, tokens.subrange(1, tokens::tree_len(tokens))),
        has_same_stops(source, blank, tokens.skip(tokens::tree_len(tokens))),
    ensures
        has_same_stops(source, blank, tokens),
{
    let n = tokens::tree_len(tokens);
    let keep = stops::marks(source, tokens);
    let a = stops::marks(source, tokens.subrange(1, n));
    let b = stops::marks(source, tokens.skip(n));
    lemma_marks_len(source, tokens.subrange(1, n));
    lemma_marks_len(source, tokens.skip(n));
    let inside = kept(tokens.subrange(1, n), a);
    let rest = kept(tokens.skip(n), b);
    let t = TokenView { size: inside.len(), ..tokens[0] };
    let left = kept(tokens, keep);
    assert(keep.subrange(1, n) =~= a);
    assert(keep.skip(n) =~= b);
    assert(keep[0]);
    assert(left == seq![t] + inside + rest);
    lemma_group_parts(t, inside, rest);
    assert(seq![true] + all_kept(inside.len()) + all_kept(rest.len()) =~= all_kept(left.len()));
}

proof fn lemma_same_stops(source: Seq<char>, blank: Seq<char>, tokens: Seq<TokenView>)
    requires
        has_no_new_doc(source, blank),
    ensures
        has_same_stops(source, blank, tokens),
    decreases tokens.len(),
{
    let keep = stops::marks(source, tokens);
    let left = kept(tokens, keep);
    if tokens.len() == 0 {
        assert(stops::marks(blank, left) =~= all_kept(left.len()));
    } else {
        let t = tokens[0];
        let n = tokens::tree_len(tokens);
        if t.kind is Group {
            lemma_same_stops(source, blank, tokens.subrange(1, n));
            lemma_same_stops(source, blank, tokens.skip(n));
            lemma_group_same_stops(source, blank, tokens);
        } else if stops::is_doc(source, t) {
            let rest = tokens.skip(1);
            extract::lemma_run_before(rest, t.open.end);
            let m = stops::doc_len(tokens);
            let more = stops::marks(source, tokens.skip(m));
            lemma_marks_len(source, tokens.skip(m));
            lemma_same_stops(source, blank, tokens.skip(m));
            lemma_kept_run(rest, t.open.end, more);
            assert(!keep[0]);
            assert(keep.skip(1) =~= Seq::new((m - 1) as nat, |i: int| false) + more);
            assert(rest.skip(m - 1) =~= tokens.skip(m));
            assert(left == kept(tokens.skip(m), more));
        } else {
            lemma_same_stops(source, blank, tokens.skip(1));
            lemma_leaf_same_stops(source, blank, tokens);
        }
    }
}

/// Of a text of one byte per character, bytes are characters.
proof fn lemma_ascii_slice(s: Seq<char>, a: int, b: int)
    requires
        is_ascii_chars(s),
    ensures
        text::slice(s, a, b) == (if 0 <= a <= b <= s.len() {
            Some(s.subrange(a, b))
        } else {
            None
        }),
{
    is_ascii_chars_encode_utf8(s);
    if 0 <= a <= b <= s.len() {
        let x = s.take(a);
        let m = s.subrange(a, b);
        let y = s.skip(b);
        assert(is_ascii_chars(x) && is_ascii_chars(m));
        is_ascii_chars_encode_utf8(x);
        is_ascii_chars_encode_utf8(m);
        text::law_part_is_slice(x, m, y);
        assert(x + m + y =~= s);
    }
}

proof fn lemma_same_line_starts(x: Seq<u8>, y: Seq<u8>)
    requires
        x.len() == y.len(),
        forall|i: int|
            0 <= i < x.len() ==> ((#[trigger] x[i]) == extract::LINE_FEED <==> y[i]
                == extract::LINE_FEED),
    ensures
        extract::line_starts(x) == extract::line_starts(y),
    decreases x.len(),
{
    if x.len() > 0 {
        lemma_same_line_starts(x.drop_last(), y.drop_last());
        if x.len() > 1 {
            assert(x[x.len() - 2] == extract::LINE_FEED <==> y[x.len() - 2] == extract::LINE_FEED);
        }
    }
}

/// `blank` has the lines of `source`, and a space or the same character in each
/// place.
spec fn is_blanking(source: Seq<char>, blank: Seq<char>) -> bool {
    &&& is_ascii_chars(source)
    &&& is_ascii_chars(blank)
    &&& blank.len() == source.len()
    &&& forall|j: int|
        0 <= j < source.len() ==> #[trigger] blank[j] == source[j] || blank[j] == ' ' && source[j]
            != '\n'
}

proof fn lemma_same_offset(source: Seq<char>, blank: Seq<char>, at: LineColumn)
    requires
        is_blanking(source, blank),
    ensures
        extract::offset(blank, at) == extract::offset(source, at),
{
    is_ascii_chars_encode_utf8(source);
    is_ascii_chars_encode_utf8(blank);
    let x = encode_utf8(source);
    let y = encode_utf8(blank);
    assert forall|i: int| 0 <= i < x.len() implies ((#[trigger] x[i]) == extract::LINE_FEED
        <==> y[i] == extract::LINE_FEED) by {
        assert(source[i] as u8 == x[i]);
        assert(blank[i] as u8 == y[i]);
        assert(blank[i] == source[i] || blank[i] == ' ' && source[i] != '\n');
    }
    lemma_same_line_starts(x, y);
}

proof fn lemma_no_new_doc(source: Seq<char>, blank: Seq<char>)
    requires
        is_blanking(source, blank),
    ensures
        has_no_new_doc(source, blank),
{
    assert forall|sign: char, at: Extent|
        (extract::is_doc_comment(source, sign, at) is Some ==> (
        #[trigger] extract::is_doc_comment(blank, sign, at)) is Some) && (extract::is_doc_comment(
            blank,
            sign,
            at,
        ) == Some(true) ==> extract::is_doc_comment(source, sign, at) == Some(true)) by {
        lemma_same_offset(source, blank, at.start);
        if let Some(o) = extract::offset(source, at.start) {
            lemma_ascii_slice(source, o, o + 1);
            lemma_ascii_slice(blank, o, o + 1);
            if 0 <= o < source.len() {
                assert(blank[o] == source[o] || blank[o] == ' ');
                assert(blank.subrange(o, o + 1)[0] == blank[o]);
                assert(source.subrange(o, o + 1) =~= seq![source[o]]);
            }
        }
    }
    assert forall|t: TokenView| !stops::is_doc(source, t) implies !#[trigger] stops::is_doc(
        blank,
        t,
    ) by {
        if let TokenKind::Punct(sign, _) = t.kind {
            assert(extract::is_doc_comment(blank, sign, t.open) == Some(true)
                ==> extract::is_doc_comment(source, sign, t.open) == Some(true));
        }
    }
}

/// Wherever a comment opens in `a..b` of `source`, `blank` has a space.
spec fn is_cleared(source: Seq<char>, blank: Seq<char>, a: int, b: int) -> bool {
    forall|j: int|
        0 <= a <= j && j + 1 < b <= source.len() && #[trigger] comment::opens_at(
            source.subrange(a, b),
            j - a,
        ) ==> blank[j] == ' '
}

proof fn lemma_cleared_gap(source: Seq<char>, blank: Seq<char>, a: int, b: int)
    requires
        is_blanking(source, blank),
        0 <= a <= b <= source.len(),
        is_cleared(source, blank, a, b),
    ensures
        comment::gap(blank.subrange(a, b)) == Some(Seq::<CommentView>::empty()),
{
    let g = blank.subrange(a, b);
    let h = source.subrange(a, b);
    assert forall|i: int| !comment::opens_at(g, i) by {
        if comment::opens_at(g, i) {
            let j = a + i;
            assert(blank[j] == source[j] || blank[j] == ' ');
            assert(blank[j + 1] == source[j + 1] || blank[j + 1] == ' ');
            assert(g[i] == blank[j] && g[i + 1] == blank[j + 1]);
            assert(comment::opens_at(h, j - a));
        }
    }
    comment_laws::law_no_comment(g);
}

proof fn lemma_visit_cleared(
    source: Seq<char>,
    blank: Seq<char>,
    p: Progress,
    q: Progress,
    list: Seq<Stop>,
)
    requires
        is_blanking(source, blank),
        stops::visit_all(source, p, list) is Some,
        q.last == p.last,
        forall|i: int|
            0 <= i < list.len() && (#[trigger] list[i]).reads ==> is_cleared(
                source,
                blank,
                stop_laws::gap_from(source, list, p.last, i),
                gap_to(source, list, i),
            ),
    ensures
        stops::visit_all(blank, q, list) matches Some(r) && r.comments == q.comments,
    decreases list.len(),
{
    if list.len() > 0 {
        let stop = list[0];
        let rest = list.drop_first();
        let next = stops::visit(source, p, stop).unwrap();
        lemma_same_offset(source, blank, stop.at.start);
        lemma_same_offset(source, blank, stop.at.end);
        if stop.reads {
            let b = extract::offset(source, stop.at.start).unwrap();
            lemma_ascii_slice(source, p.last, b);
            lemma_ascii_slice(blank, p.last, b);
            assert(is_cleared(
                source,
                blank,
                stop_laws::gap_from(source, list, p.last, 0),
                gap_to(source, list, 0),
            ));
            lemma_cleared_gap(source, blank, p.last, b);
        }
        let after = stops::visit(blank, q, stop).unwrap();
        assert(after.last == next.last && after.comments == q.comments);
        assert forall|i: int| 0 <= i < rest.len() && (#[trigger] rest[i]).reads implies is_cleared(
            source,
            blank,
            stop_laws::gap_from(source, rest, next.last, i),
            gap_to(source, rest, i),
        ) by {
            assert(rest[i] == list[i + 1]);
            if i > 0 {
                assert(rest[i - 1] == list[i]);
            }
            assert(is_cleared(
                source,
                blank,
                stop_laws::gap_from(source, list, p.last, i + 1),
                gap_to(source, list, i + 1),
            ));
        }
        lemma_visit_cleared(source, blank, next, after, rest);
    }
}

/// Comments do not show in the tokens, and nothing else is lost with them. Of a
/// text of one byte per character, let every character of its comments but the line
/// feeds be a space, and the tokens be without the attributes that stand for doc
/// comments. Of that text and these tokens the extraction finds no comment, and
/// leaves the same tokens as before.
pub proof fn law_blanked(source: Seq<char>, tokens: Seq<TokenView>)
    requires
        is_ascii_chars(source),
        extract::walk(source, tokens, extract::start()) is Some,
    ensures
        ({
            let p = extract::walk(source, tokens, extract::start()).unwrap();
            let blank = blanked(source, stops::stops(source, tokens));
            let left = kept(tokens, p.keep);
            &&& extract::walk(blank, left, extract::start()) matches Some(q)
            &&& q.comments == Map::<HashLineColumn, Seq<CommentView>>::empty()
            &&& q.keep == all_kept(left.len())
            &&& tokens::masked(left, q.keep) == tokens::masked(tokens, p.keep)
        }),
{
    let list = stops::stops(source, tokens);
    let blank = blanked(source, list);
    let p = extract::walk(source, tokens, extract::start()).unwrap();
    let keep = stops::marks(source, tokens);
    let left = kept(tokens, keep);
    stops::law_walk_stops(source, tokens, extract::start());
    assert(Seq::<bool>::empty() + keep =~= keep);
    assert(p.keep == keep);
    assert(is_blanking(source, blank));
    lemma_no_new_doc(source, blank);
    lemma_same_stops(source, blank, tokens);
    assert forall|i: int| 0 <= i < list.len() && (#[trigger] list[i]).reads implies is_cleared(
        source,
        blank,
        stop_laws::gap_from(source, list, 0, i),
        gap_to(source, list, i),
    ) by {
        let a = stop_laws::gap_from(source, list, 0, i);
        let b = gap_to(source, list, i);
        let g = source.subrange(a, b);
        assert forall|j: int|
            0 <= a <= j && j + 1 < b <= source.len() && #[trigger] comment::opens_at(
                g,
                j - a,
            ) implies blank[j] == ' ' by {
            lemma_opens_in_comment(g, j - a);
            assert(is_commented_at(source, list, i, j));
            assert(g[j - a] == source[j]);
        }
    }
    lemma_visit_cleared(source, blank, extract::start(), extract::start(), list);
    stops::law_walk_stops(blank, left, extract::start());
    assert(Seq::<bool>::empty() + all_kept(left.len()) =~= all_kept(left.len()));
    lemma_marks_len(source, tokens);
    lemma_masked_kept(tokens, keep);
}

} // verus!
