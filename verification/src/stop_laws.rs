//! What an extraction finds, gap by gap.
use vstd::prelude::*;
use vstd::utf8::*;
use crate::comment::{self, CommentView};
use crate::comment_laws::{self, Piece};
use crate::extract::{self, Progress};
use crate::location::{HashLineColumn, LineColumn};
use crate::stops::{self, Stop};
use crate::text;
use crate::tokens::{self, TokenKind, TokenView};

verus! {

/// Where the gap before the stop `i` starts: behind the stop before it, or at `last`.
pub open spec fn gap_from(source: Seq<char>, list: Seq<Stop>, last: int, i: int) -> int {
    if i <= 0 {
        last
    } else {
        match extract::offset(source, list[i - 1].at.end) {
            Some(o) => o,
            None => -1,
        }
    }
}

/// The text of the gap before the stop `i`.
pub open spec fn gap_text(source: Seq<char>, list: Seq<Stop>, last: int, i: int) -> Option<
    Seq<char>,
> {
    match extract::offset(source, list[i].at.start) {
        Some(end) => text::slice(source, gap_from(source, list, last, i), end),
        None => None,
    }
}

/// Where a stop has its entry.
pub open spec fn key(stop: Stop) -> HashLineColumn {
    HashLineColumn(stop.at.start)
}

/// No stop behind `i` has its entry at the same position.
pub open spec fn is_last_there(list: Seq<Stop>, i: int) -> bool {
    forall|j: int| i < j < list.len() && (#[trigger] list[j]).reads ==> key(list[j]) != key(list[i])
}

/// The comments of the gap before the stop `i`, where it is read.
pub open spec fn is_gap(
    source: Seq<char>,
    list: Seq<Stop>,
    last: int,
    i: int,
    comments: Seq<CommentView>,
) -> bool {
    &&& 0 <= i < list.len()
    &&& list[i].reads
    &&& gap_text(source, list, last, i) matches Some(s) && comment::gap(s) == Some(comments)
}

proof fn lemma_visit_stays(source: Seq<char>, p: Progress, list: Seq<Stop>, k: HashLineColumn)
    requires
        forall|j: int| 0 <= j < list.len() && (#[trigger] list[j]).reads ==> key(list[j]) != k,
    ensures
        stops::visit_all(source, p, list) matches Some(q) ==> (q.comments.contains_key(k)
            <==> p.comments.contains_key(k)) && (p.comments.contains_key(k) ==> q.comments[k]
            == p.comments[k]),
    decreases list.len(),
{
    if list.len() > 0 {
        let rest = list.drop_first();
        assert(list[0].reads ==> key(list[0]) != k);
        assert forall|j: int| 0 <= j < rest.len() && (#[trigger] rest[j]).reads implies key(rest[j])
            != k by {
            assert(rest[j] == list[j + 1]);
        }
        if let Some(q) = stops::visit(source, p, list[0]) {
            lemma_visit_stays(source, q, rest, k);
        }
    }
}

/// The gaps of the stops behind the first.
proof fn lemma_gap_shift(source: Seq<char>, list: Seq<Stop>, last: int, next: int, i: int)
    requires
        0 < i < list.len(),
        extract::offset(source, list[0].at.end) == Some(next),
    ensures
        gap_text(source, list.drop_first(), next, i - 1) == gap_text(source, list, last, i),
        list.drop_first()[i - 1] == list[i],
{
    if i > 1 {
        assert(list.drop_first()[i - 2] == list[i - 1]);
    }
}

proof fn lemma_visit_gap(source: Seq<char>, p: Progress, list: Seq<Stop>, i: int)
    requires
        0 <= i < list.len(),
        list[i].reads,
        stops::visit_all(source, p, list) is Some,
    ensures
        gap_text(source, list, p.last, i) matches Some(s) && (comment::gap(s) matches Some(c) && (
        c.len() > 0 && is_last_there(list, i) ==> {
            let q = stops::visit_all(source, p, list).unwrap();
            q.comments.contains_key(key(list[i])) && q.comments[key(list[i])] == c
        })),
    decreases list.len(),
{
    let rest = list.drop_first();
    let next = stops::visit(source, p, list[0]).unwrap();
    if i == 0 {
        if is_last_there(list, 0) {
            assert forall|j: int| 0 <= j < rest.len() && (#[trigger] rest[j]).reads implies key(
                rest[j],
            ) != key(list[0]) by {
                assert(rest[j] == list[j + 1]);
            }
            lemma_visit_stays(source, next, rest, key(list[0]));
        }
    } else {
        lemma_gap_shift(source, list, p.last, next.last, i);
        lemma_visit_gap(source, next, rest, i - 1);
        if is_last_there(list, i) {
            assert forall|j: int| i - 1 < j < rest.len() && (#[trigger] rest[j]).reads implies key(
                rest[j],
            ) != key(rest[i - 1]) by {
                assert(rest[j] == list[j + 1]);
            }
        }
    }
}

/// Every gap before an identifier, a literal or a delimiter is read. If comments
/// stand in it, they have their entry under the position behind it, unless a later
/// gap ends at the same position.
pub proof fn law_every_gap(source: Seq<char>, tokens: Seq<TokenView>, p: Progress, i: int)
    requires
        extract::walk(source, tokens, p) is Some,
        0 <= i < stops::stops(source, tokens).len(),
        stops::stops(source, tokens)[i].reads,
    ensures
        ({
            let q = extract::walk(source, tokens, p).unwrap();
            let list = stops::stops(source, tokens);
            gap_text(source, list, p.last, i) matches Some(s) && (comment::gap(s) matches Some(c)
                && (c.len() > 0 && is_last_there(list, i) ==> q.comments.contains_key(key(list[i]))
                && q.comments[key(list[i])] == c))
        }),
{
    stops::law_walk_stops(source, tokens, p);
    lemma_visit_gap(source, p, stops::stops(source, tokens), i);
}

proof fn lemma_visit_traced(source: Seq<char>, p: Progress, list: Seq<Stop>, k: HashLineColumn)
    requires
        stops::visit_all(source, p, list) is Some,
        stops::visit_all(source, p, list).unwrap().comments.contains_key(k),
    ensures
        ({
            let c = stops::visit_all(source, p, list).unwrap().comments[k];
            ||| p.comments.contains_key(k) && p.comments[k] == c
            ||| c.len() > 0 && exists|i: int| #[trigger]
                is_gap(source, list, p.last, i, c) && key(list[i]) == k
        }),
    decreases list.len(),
{
    if list.len() > 0 {
        let rest = list.drop_first();
        let next = stops::visit(source, p, list[0]).unwrap();
        let c = stops::visit_all(source, p, list).unwrap().comments[k];
        lemma_visit_traced(source, next, rest, k);
        if next.comments.contains_key(k) && next.comments[k] == c {
            if !(p.comments.contains_key(k) && p.comments[k] == c) {
                assert(is_gap(source, list, p.last, 0, c) && key(list[0]) == k);
            }
        } else {
            let i = choose|i: int| #[trigger]
                is_gap(source, rest, next.last, i, c) && key(rest[i]) == k;
            lemma_gap_shift(source, list, p.last, next.last, i + 1);
            assert(is_gap(source, list, p.last, i + 1, c) && key(list[i + 1]) == k);
        }
    }
}

/// Every entry was there before, or holds the comments of a gap that ends at its
/// position: what stands between two neighbouring tokens or delimiters.
pub proof fn law_every_entry(
    source: Seq<char>,
    tokens: Seq<TokenView>,
    p: Progress,
    k: HashLineColumn,
)
    requires
        extract::walk(source, tokens, p) is Some,
        extract::walk(source, tokens, p).unwrap().comments.contains_key(k),
    ensures
        ({
            let c = extract::walk(source, tokens, p).unwrap().comments[k];
            let list = stops::stops(source, tokens);
            ||| p.comments.contains_key(k) && p.comments[k] == c
            ||| c.len() > 0 && exists|i: int| #[trigger]
                is_gap(source, list, p.last, i, c) && key(list[i]) == k
        }),
{
    stops::law_walk_stops(source, tokens, p);
    lemma_visit_traced(source, p, stops::stops(source, tokens), k);
}

/// A character starts or the text ends at the byte `o`.
pub open spec fn is_boundary(source: Seq<char>, o: int) -> bool {
    0 <= o <= text::byte_len(source) && is_char_boundary(encode_utf8(source), o)
}

/// The position is one between two characters of the text.
pub open spec fn is_placed(source: Seq<char>, at: LineColumn) -> bool {
    extract::offset(source, at) matches Some(o) && is_boundary(source, o)
}

/// The stops stand in the text, one behind the other.
pub open spec fn are_in_order(source: Seq<char>, list: Seq<Stop>, last: int) -> bool {
    &&& is_boundary(source, last)
    &&& forall|i: int|
        0 <= i < list.len() ==> is_placed(source, (#[trigger] list[i]).at.start) && is_placed(
            source,
            list[i].at.end,
        ) && gap_from(source, list, last, i) <= extract::offset(
            source,
            list[i].at.start,
        ).unwrap()
}

/// A text of complete comments, with text without slashes between them.
pub open spec fn is_complete(s: Seq<char>) -> bool {
    exists|pieces: Seq<Piece>|
        s == #[trigger] comment_laws::pieces_text(pieces) && forall|i: int|
            0 <= i < pieces.len() ==> comment_laws::is_piece(#[trigger] pieces[i])
}

/// A punctuation token stands in the text; a number sign stands where one byte does.
pub open spec fn is_sign_placed(source: Seq<char>, t: TokenView) -> bool {
    t.kind matches TokenKind::Punct(sign, _) ==> (extract::offset(source, t.open.start) matches Some(
        o,
    ) && (sign == '#' ==> is_boundary(source, o) && is_boundary(source, o + 1)))
}

/// Every punctuation token stands in the text.
pub open spec fn are_signs_placed(source: Seq<char>, list: Seq<TokenView>) -> bool {
    forall|i: int| 0 <= i < list.len() ==> is_sign_placed(source, #[trigger] list[i])
}

proof fn lemma_part_signs_placed(source: Seq<char>, list: Seq<TokenView>, a: int, b: int)
    requires
        are_signs_placed(source, list),
        0 <= a <= b <= list.len(),
    ensures
        are_signs_placed(source, list.subrange(a, b)),
{
    let part = list.subrange(a, b);
    assert forall|i: int| 0 <= i < part.len() implies is_sign_placed(source, #[trigger] part[i]) by {
        assert(part[i] == list[a + i]);
    }
}

proof fn lemma_signs(source: Seq<char>, list: Seq<TokenView>)
    requires
        are_signs_placed(source, list),
    ensures
        stops::has_signs(source, list),
    decreases list.len(),
{
    if list.len() > 0 {
        let t = list[0];
        let n = tokens::tree_len(list);
        let end = list.len() as int;
        assert(is_sign_placed(source, list[0]));
        extract::lemma_run_before(list.skip(1), t.open.end);
        let m = stops::doc_len(list);
        lemma_part_signs_placed(source, list, 1, n);
        lemma_signs(source, list.subrange(1, n));
        lemma_part_signs_placed(source, list, n, end);
        assert(list.subrange(n, end) =~= list.skip(n));
        lemma_signs(source, list.skip(n));
        lemma_part_signs_placed(source, list, m, end);
        assert(list.subrange(m, end) =~= list.skip(m));
        lemma_signs(source, list.skip(m));
        lemma_part_signs_placed(source, list, 1, end);
        assert(list.subrange(1, end) =~= list.skip(1));
        lemma_signs(source, list.skip(1));
    }
}

proof fn lemma_visit_placed(source: Seq<char>, p: Progress, list: Seq<Stop>)
    requires
        are_in_order(source, list, p.last),
        forall|i: int|
            0 <= i < list.len() && (#[trigger] list[i]).reads ==> (gap_text(
                source,
                list,
                p.last,
                i,
            ) matches Some(s) && comment::gap(s) is Some),
    ensures
        stops::visit_all(source, p, list) is Some,
    decreases list.len(),
{
    if list.len() > 0 {
        let rest = list.drop_first();
        assert(is_placed(source, list[0].at.start) && is_placed(source, list[0].at.end));
        let next = stops::visit(source, p, list[0]).unwrap();
        assert forall|i: int| 0 <= i < rest.len() implies is_placed(
            source,
            (#[trigger] rest[i]).at.start,
        ) && is_placed(source, rest[i].at.end) && gap_from(source, rest, next.last, i)
            <= extract::offset(source, rest[i].at.start).unwrap() by {
            assert(rest[i] == list[i + 1]);
            assert(is_placed(source, list[i + 1].at.start));
            if i > 0 {
                assert(rest[i - 1] == list[i]);
            }
        }
        assert forall|i: int| 0 <= i < rest.len() && (#[trigger] rest[i]).reads implies (gap_text(
            source,
            rest,
            next.last,
            i,
        ) matches Some(s) && comment::gap(s) is Some) by {
            lemma_gap_shift(source, list, p.last, next.last, i + 1);
            assert(list[i + 1].reads);
        }
        lemma_visit_placed(source, next, rest);
    }
}

/// An extraction has a result where the tokens stand in the text one behind the
/// other, between characters, and each gap that is read holds complete comments
/// only, with text without slashes between them.
pub proof fn law_placed(source: Seq<char>, tokens: Seq<TokenView>, p: Progress)
    requires
        are_signs_placed(source, tokens),
        are_in_order(source, stops::stops(source, tokens), p.last),
        forall|i: int|
            0 <= i < stops::stops(source, tokens).len() && (#[trigger] stops::stops(
                source,
                tokens,
            )[i]).reads ==> is_complete(
                gap_text(source, stops::stops(source, tokens), p.last, i).unwrap(),
            ),
    ensures
        extract::walk(source, tokens, p) is Some,
{
    let list = stops::stops(source, tokens);
    stops::law_walk_stops(source, tokens, p);
    lemma_signs(source, tokens);
    assert forall|i: int| 0 <= i < list.len() && (#[trigger] list[i]).reads implies (gap_text(
        source,
        list,
        p.last,
        i,
    ) matches Some(s) && comment::gap(s) is Some) by {
        assert(is_placed(source, list[i].at.start));
        if i > 0 {
            assert(is_placed(source, list[i - 1].at.end));
        }
        let s = gap_text(source, list, p.last, i).unwrap();
        assert(is_complete(s));
        let pieces = choose|pieces: Seq<Piece>|
            s == #[trigger] comment_laws::pieces_text(pieces) && forall|j: int|
                0 <= j < pieces.len() ==> comment_laws::is_piece(#[trigger] pieces[j]);
        comment_laws::law_read_pieces(pieces);
    }
    lemma_visit_placed(source, p, list);
}

} // verus!
