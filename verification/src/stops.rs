//! The places that an extraction stops at, one after the other: what it comes to
//! without the trees of tokens.
use vstd::prelude::*;
use crate::extract::{self, Progress};
use crate::location::Extent;
use crate::tokens::{self, TokenKind, TokenView};

verus! {

/// A token or a delimiter in the text. The comments before it are read, unless it
/// is punctuation.
pub struct Stop {
    pub at: Extent,
    pub reads: bool,
}

/// The token is the number sign of an attribute that stands for a doc comment.
pub open spec fn is_doc(source: Seq<char>, t: TokenView) -> bool {
    t.kind matches TokenKind::Punct(sign, _) && extract::is_doc_comment(source, sign, t.open)
        == Some(true)
}

/// The number of tokens from a number sign to the end of the attribute that it
/// belongs to.
pub open spec fn doc_len(tokens: Seq<TokenView>) -> int {
    1 + extract::run_before(tokens.skip(1), tokens[0].open.end)
}

/// The tokens and delimiters in the order of the text, without the attributes that
/// stand for doc comments.
pub open spec fn stops(source: Seq<char>, tokens: Seq<TokenView>) -> Seq<Stop>
    decreases tokens.len(),
{
    if tokens.len() == 0 {
        Seq::empty()
    } else {
        let t = tokens[0];
        let n = tokens::tree_len(tokens);
        match t.kind {
            TokenKind::Group(_) => seq![Stop { at: t.open, reads: true }] + stops(
                source,
                tokens.subrange(1, n),
            ) + seq![Stop { at: t.close, reads: true }] + stops(source, tokens.skip(n)),
            TokenKind::Punct(_, _) => if is_doc(source, t) {
                proof {
                    extract::lemma_run_before(tokens.skip(1), t.open.end);
                }
                stops(source, tokens.skip(doc_len(tokens)))
            } else {
                seq![Stop { at: t.open, reads: false }] + stops(source, tokens.skip(1))
            },
            _ => seq![Stop { at: t.open, reads: true }] + stops(source, tokens.skip(1)),
        }
    }
}

/// Which of the tokens are not part of an attribute that stands for a doc comment.
pub open spec fn marks(source: Seq<char>, tokens: Seq<TokenView>) -> Seq<bool>
    decreases tokens.len(),
{
    if tokens.len() == 0 {
        Seq::empty()
    } else {
        let t = tokens[0];
        let n = tokens::tree_len(tokens);
        match t.kind {
            TokenKind::Group(_) => seq![true] + marks(source, tokens.subrange(1, n)) + marks(
                source,
                tokens.skip(n),
            ),
            TokenKind::Punct(_, _) => if is_doc(source, t) {
                proof {
                    extract::lemma_run_before(tokens.skip(1), t.open.end);
                }
                Seq::new(doc_len(tokens) as nat, |i: int| false) + marks(
                    source,
                    tokens.skip(doc_len(tokens)),
                )
            } else {
                seq![true] + marks(source, tokens.skip(1))
            },
            _ => seq![true] + marks(source, tokens.skip(1)),
        }
    }
}

/// For each punctuation token that is come to, it can be told whether it stands for
/// a doc comment: it stands in the text.
pub open spec fn has_signs(source: Seq<char>, tokens: Seq<TokenView>) -> bool
    decreases tokens.len(),
{
    if tokens.len() == 0 {
        true
    } else {
        let t = tokens[0];
        let n = tokens::tree_len(tokens);
        match t.kind {
            TokenKind::Group(_) => has_signs(source, tokens.subrange(1, n)) && has_signs(
                source,
                tokens.skip(n),
            ),
            TokenKind::Punct(sign, _) => {
                &&& extract::is_doc_comment(source, sign, t.open) is Some
                &&& if is_doc(source, t) {
                    proof {
                        extract::lemma_run_before(tokens.skip(1), t.open.end);
                    }
                    has_signs(source, tokens.skip(doc_len(tokens)))
                } else {
                    has_signs(source, tokens.skip(1))
                }
            },
            _ => has_signs(source, tokens.skip(1)),
        }
    }
}

/// Comes to a stop and moves behind it.
pub open spec fn visit(source: Seq<char>, p: Progress, stop: Stop) -> Option<Progress> {
    if stop.reads {
        extract::pass(source, p, stop.at)
    } else {
        extract::move_to(source, p, stop.at.end)
    }
}

/// Comes to one stop after the other.
pub open spec fn visit_all(source: Seq<char>, p: Progress, list: Seq<Stop>) -> Option<Progress>
    decreases list.len(),
{
    if list.len() == 0 {
        Some(p)
    } else {
        match visit(source, p, list[0]) {
            None => None,
            Some(q) => visit_all(source, q, list.drop_first()),
        }
    }
}

/// `found` with other marks.
pub open spec fn marked(found: Option<Progress>, keep: Seq<bool>) -> Option<Progress> {
    match found {
        None => None,
        Some(q) => Some(Progress { keep, ..q }),
    }
}

/// The marks play no part.
proof fn lemma_visit_keep(source: Seq<char>, p: Progress, keep: Seq<bool>, list: Seq<Stop>)
    ensures
        visit_all(source, Progress { keep, ..p }, list) == marked(
            visit_all(source, p, list),
            keep,
        ),
        visit_all(source, p, list) matches Some(q) ==> q.keep == p.keep,
    decreases list.len(),
{
    if list.len() > 0 {
        assert(visit(source, Progress { keep, ..p }, list[0]) == marked(
            visit(source, p, list[0]),
            keep,
        ));
        if let Some(q) = visit(source, p, list[0]) {
            lemma_visit_keep(source, q, keep, list.drop_first());
        }
    }
}

proof fn lemma_visit_concat(source: Seq<char>, p: Progress, a: Seq<Stop>, b: Seq<Stop>)
    ensures
        visit_all(source, p, a + b) == (match visit_all(source, p, a) {
            None => None,
            Some(q) => visit_all(source, q, b),
        }),
    decreases a.len(),
{
    if a.len() == 0 {
        assert(a + b =~= b);
    } else {
        assert((a + b).drop_first() =~= a.drop_first() + b);
        if let Some(q) = visit(source, p, a[0]) {
            lemma_visit_concat(source, q, a.drop_first(), b);
        }
    }
}

/// One stop, and those behind it.
proof fn lemma_visit_first(source: Seq<char>, p: Progress, stop: Stop, rest: Seq<Stop>)
    ensures
        visit_all(source, p, seq![stop] + rest) == (match visit(source, p, stop) {
            None => None,
            Some(q) => visit_all(source, q, rest),
        }),
{
    assert((seq![stop] + rest).drop_first() =~= rest);
}

/// What an extraction comes to: the stops one after the other, and the marks. There
/// is no result where a number sign does not stand in the text.
pub open spec fn outcome(source: Seq<char>, tokens: Seq<TokenView>, p: Progress) -> Option<Progress> {
    if has_signs(source, tokens) {
        marked(
            visit_all(source, p, stops(source, tokens)),
            p.keep + marks(source, tokens),
        )
    } else {
        None
    }
}

/// An extraction over trees of tokens comes to their stops in the order of the text.
pub proof fn law_walk_stops(source: Seq<char>, tokens: Seq<TokenView>, p: Progress)
    ensures
        extract::walk(source, tokens, p) == outcome(source, tokens, p),
    decreases tokens.len(), 1int,
{
    reveal(extract::walk);
    if tokens.len() == 0 {
        assert(p.keep + marks(source, tokens) =~= p.keep);
    } else {
        let t = tokens[0];
        let n = tokens::tree_len(tokens);
        match t.kind {
            TokenKind::Group(_) => {
                lemma_walk_group(source, tokens, p);
            },
            TokenKind::Punct(sign, _) => {
                if is_doc(source, t) {
                    extract::lemma_run_before(tokens.skip(1), t.open.end);
                    let m = doc_len(tokens);
                    let q = extract::mark(p, m, false);
                    law_walk_stops(source, tokens.skip(m), q);
                    lemma_visit_keep(source, p, q.keep, stops(source, tokens.skip(m)));
                    assert(q.keep + marks(source, tokens.skip(m)) =~= p.keep + marks(
                        source,
                        tokens,
                    ));
                } else {
                    lemma_walk_leaf(source, tokens, p, Stop { at: t.open, reads: false });
                }
            },
            _ => {
                lemma_walk_leaf(source, tokens, p, Stop { at: t.open, reads: true });
            },
        }
    }
}

proof fn lemma_walk_leaf(source: Seq<char>, tokens: Seq<TokenView>, p: Progress, stop: Stop)
    requires
        tokens.len() > 0,
        tokens[0].kind !is Group,
        !is_doc(source, tokens[0]),
        stop == (Stop { at: tokens[0].open, reads: tokens[0].kind !is Punct }),
    ensures
        extract::walk(source, tokens, p) == outcome(source, tokens, p),
    decreases tokens.len(), 0int,
{
    reveal(extract::walk);
    let rest = stops(source, tokens.skip(1));
    lemma_visit_first(source, p, stop, rest);
    if let Some(q) = visit(source, p, stop) {
        let next = extract::mark(q, 1, true);
        law_walk_stops(source, tokens.skip(1), next);
        lemma_visit_keep(source, q, next.keep, rest);
        assert(next.keep + marks(source, tokens.skip(1)) =~= p.keep + marks(source, tokens));
    }
}

proof fn lemma_walk_group(source: Seq<char>, tokens: Seq<TokenView>, p: Progress)
    requires
        tokens.len() > 0,
        tokens[0].kind is Group,
    ensures
        extract::walk(source, tokens, p) == outcome(source, tokens, p),
    decreases tokens.len(), 0int,
{
    reveal(extract::walk);
    let t = tokens[0];
    let n = tokens::tree_len(tokens);
    let inside = tokens.subrange(1, n);
    let open = Stop { at: t.open, reads: true };
    let close = Stop { at: t.close, reads: true };
    let a = stops(source, inside);
    let b = stops(source, tokens.skip(n));
    assert(stops(source, tokens) =~= seq![open] + (a + (seq![close] + b)));
    lemma_visit_first(source, p, open, a + (seq![close] + b));
    if let Some(opened) = visit(source, p, open) {
        let m = extract::mark(opened, 1, true);
        lemma_visit_concat(source, opened, a, seq![close] + b);
        law_walk_stops(source, inside, m);
        lemma_visit_keep(source, opened, m.keep, a);
        if let Some(inner) = visit_all(source, opened, a) {
            let keep = m.keep + marks(source, inside);
            let k = Progress { keep, ..inner };
            lemma_visit_first(source, inner, close, b);
            assert(visit(source, k, close) == marked(visit(source, inner, close), keep));
            if let Some(closed) = visit(source, inner, close) {
                let c = Progress { keep, ..closed };
                law_walk_stops(source, tokens.skip(n), c);
                lemma_visit_keep(source, closed, keep, b);
                lemma_visit_keep(source, closed, closed.keep, b);
                assert(keep + marks(source, tokens.skip(n)) =~= p.keep + marks(source, tokens));
            }
        }
    }
}

} // verus!
