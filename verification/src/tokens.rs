//! The tokens of a source text, as the tokenizer gives them and as plain values.
use vstd::prelude::*;
use crate::location::{Extent, LineColumn};
use proc_macro2::{Group, LexError, Span, TokenStream, TokenTree};
use std::str::FromStr;

verus! {

/// What encloses a group of tokens.
#[derive(Clone, Copy, PartialEq, Eq, Debug, Structural)]
pub enum Delimiter {
    Parenthesis,
    Brace,
    Bracket,
    Invisible,
}

/// Whether a punctuation character directly precedes another one.
#[derive(Clone, Copy, PartialEq, Eq, Debug, Structural)]
pub enum Spacing {
    Alone,
    Joint,
}

/// What a token is.
#[derive(Clone, Copy, PartialEq, Eq, Debug, Structural)]
pub enum TokenKind {
    Group(Delimiter),
    Ident,
    Punct(char, Spacing),
    Literal,
}

/// A token. Token trees are laid out flat: a group is followed by the tokens in
/// it, `size` of them, and these by what comes after the group.
#[derive(PartialEq, Eq, Debug)]
pub struct Token {
    pub kind: TokenKind,
    /// Where the token stands; for a group, its opening delimiter.
    pub open: Extent,
    /// For a group, where its closing delimiter stands; else the same as `open`.
    pub close: Extent,
    /// The number of tokens in the group; zero for a token that is none.
    pub size: usize,
    /// How an identifier or a literal is written; empty for any other token.
    pub text: String,
}

/// The model of a [`Token`].
pub struct TokenView {
    pub kind: TokenKind,
    pub open: Extent,
    pub close: Extent,
    pub size: nat,
    pub text: Seq<char>,
}

impl View for Token {
    type V = TokenView;

    open spec fn view(&self) -> TokenView {
        TokenView {
            kind: self.kind,
            open: self.open,
            close: self.close,
            size: self.size as nat,
            text: self.text@,
        }
    }
}

/// The models of a list of tokens.
pub open spec fn views(tokens: Seq<Token>) -> Seq<TokenView> {
    tokens.map_values(|t: Token| t@)
}

/// `proc_macro2::TokenStream`: the tokens of a source text, in trees.
#[verifier::external_type_specification]
#[verifier::external_body]
pub struct ExTokenStream(TokenStream);

/// `proc_macro2::TokenTree`: a token, or a group with what is in it.
#[verifier::external_type_specification]
#[verifier::external_body]
pub struct ExTokenTree(TokenTree);

/// `proc_macro2::LexError`: what is wrong with a text that cannot be tokenized.
#[verifier::external_type_specification]
#[verifier::external_body]
pub struct ExLexError(LexError);

/// The tokens that a token stream holds, laid out flat.
pub uninterp spec fn stream_tokens(stream: TokenStream) -> Seq<TokenView>;

/// The tokens that a token tree adds to a stream it is put into, laid out flat.
pub uninterp spec fn tree_tokens(tree: TokenTree) -> Seq<TokenView>;

/// The tokens of a source text, laid out flat, or the place from which on it cannot
/// be tokenized.
pub uninterp spec fn lexed(source: Seq<char>) -> Result<Seq<TokenView>, LineColumn>;

/// The place from which on a text cannot be tokenized.
pub uninterp spec fn error_place(error: LexError) -> LineColumn;

/// The number of tokens that the first tree of `tokens` takes.
pub open spec fn tree_len(tokens: Seq<TokenView>) -> int {
    if tokens[0].kind is Group && 1 + tokens[0].size <= tokens.len() {
        1 + tokens[0].size as int
    } else if tokens[0].kind is Group {
        tokens.len() as int
    } else {
        1
    }
}

/// `tokens` is one token, or one group with what is in it.
pub open spec fn is_tree(tokens: Seq<TokenView>) -> bool {
    &&& tokens.len() == 1 + tokens[0].size
    &&& tokens[0].kind !is Group ==> tokens.len() == 1
}

/// Groups end within the list and within the groups that they stand in.
pub open spec fn are_nested(tokens: Seq<TokenView>) -> bool {
    &&& ends_within(tokens, 0, tokens.len() as int)
    &&& forall|j: int|
        0 <= j < tokens.len() && (#[trigger] tokens[j]).kind is Group ==> ends_within(
            tokens,
            j + 1,
            j + 1 + tokens[j].size,
        )
}

/// The groups among the tokens from `lo` up to `hi` end before `hi`.
pub open spec fn ends_within(tokens: Seq<TokenView>, lo: int, hi: int) -> bool {
    forall|k: int|
        lo <= k < hi && (#[trigger] tokens[k]).kind is Group ==> k + 1 + tokens[k].size <= hi
}

/// What the trees add to a stream, one after the other.
pub open spec fn concat(trees: Seq<TokenTree>) -> Seq<TokenView>
    decreases trees.len(),
{
    if trees.len() == 0 {
        Seq::empty()
    } else {
        tree_tokens(trees[0]) + concat(trees.drop_first())
    }
}

/// Where a group stands that no source text holds.
pub open spec fn nowhere() -> Extent {
    Extent {
        start: LineColumn { line: 1, column: 0 },
        end: LineColumn { line: 1, column: 0 },
    }
}

/// A group made of the tokens `inner`.
pub open spec fn grouped(delimiter: Delimiter, inner: Seq<TokenView>) -> Seq<TokenView> {
    seq![
        TokenView {
            kind: TokenKind::Group(delimiter),
            open: nowhere(),
            close: nowhere(),
            size: inner.len(),
            text: Seq::empty(),
        },
    ] + inner
}

/// What is left of `tokens` without the trees whose first token is not kept.
/// The groups that are left are made anew.
pub open spec fn masked(tokens: Seq<TokenView>, keep: Seq<bool>) -> Seq<TokenView>
    decreases tokens.len(),
{
    if tokens.len() == 0 {
        Seq::empty()
    } else {
        let n = tree_len(tokens);
        let rest = masked(tokens.skip(n), keep.skip(n));
        if !keep[0] {
            rest
        } else {
            match tokens[0].kind {
                TokenKind::Group(delimiter) => grouped(
                    delimiter,
                    masked(tokens.subrange(1, n), keep.subrange(1, n)),
                ) + rest,
                _ => seq![tokens[0]] + rest,
            }
        }
    }
}

/// `TokenStream::from_str`: tokenizes a source text. Whether it can, what the tokens
/// are, and where it stops if it cannot, depends on the text alone. Positions are counted in 32 bits
/// over all texts that a thread has tokenized; the bound admits any text that
/// fits in a thread that has tokenized none.
#[verifier::external_body]
pub(crate) fn lex(source: &str) -> (r: Result<TokenStream, LexError>)
    requires
        source@.len() < u32::MAX,
    ensures
        match r {
            Ok(stream) => lexed(source@) == Ok::<Seq<TokenView>, LineColumn>(
                stream_tokens(stream),
            ),
            Err(e) => lexed(source@) == Err::<Seq<TokenView>, LineColumn>(error_place(e)),
        },
{
    TokenStream::from_str(source)
}

/// `LexError::span` and `Span::start`: where tokenizing stopped.
#[verifier::external_body]
pub(crate) fn place_of(error: &LexError) -> (r: LineColumn)
    ensures
        r == error_place(*error),
{
    let place = error.span().start();
    LineColumn { line: place.line, column: place.column }
}

/// `TokenStream::into_iter`: the trees of the stream in order. A stream holds no
/// literal with a sign: such a literal is two tokens in it.
#[verifier::external_body]
pub(crate) fn into_trees(stream: TokenStream) -> (r: Vec<TokenTree>)
    ensures
        concat(r@) == stream_tokens(stream),
        forall|i: int| 0 <= i < r@.len() ==> is_tree(tree_tokens(#[trigger] r@[i])),
{
    stream.into_iter().collect()
}

/// `TokenStream::from_iter`: a stream of the given trees in order.
#[verifier::external_body]
pub(crate) fn from_trees(trees: Vec<TokenTree>) -> (r: TokenStream)
    ensures
        stream_tokens(r) == concat(trees@),
{
    TokenStream::from_iter(trees)
}

/// The variant of a `TokenTree`, with `Group::delimiter`, `Punct::as_char` and
/// `Punct::spacing`.
#[verifier::external_body]
pub(crate) fn kind_of(tree: &TokenTree) -> (r: TokenKind)
    requires
        is_tree(tree_tokens(*tree)),
    ensures
        r == tree_tokens(*tree)[0].kind,
{
    match tree {
        TokenTree::Group(g) => TokenKind::Group(match g.delimiter() {
            proc_macro2::Delimiter::Parenthesis => Delimiter::Parenthesis,
            proc_macro2::Delimiter::Brace => Delimiter::Brace,
            proc_macro2::Delimiter::Bracket => Delimiter::Bracket,
            proc_macro2::Delimiter::None => Delimiter::Invisible,
        }),
        TokenTree::Ident(_) => TokenKind::Ident,
        TokenTree::Punct(p) => TokenKind::Punct(p.as_char(), match p.spacing() {
            proc_macro2::Spacing::Alone => Spacing::Alone,
            proc_macro2::Spacing::Joint => Spacing::Joint,
        }),
        TokenTree::Literal(_) => TokenKind::Literal,
    }
}

/// `Ident::to_string` and `Literal::to_string`: how an identifier or a literal is
/// written. Any other tree has no text of its own.
#[verifier::external_body]
pub(crate) fn text_of(tree: &TokenTree) -> (r: String)
    requires
        is_tree(tree_tokens(*tree)),
    ensures
        r@ == tree_tokens(*tree)[0].text,
{
    match tree {
        TokenTree::Ident(i) => i.to_string(),
        TokenTree::Literal(l) => l.to_string(),
        TokenTree::Group(_) => String::new(),
        TokenTree::Punct(_) => String::new(),
    }
}

/// `TokenTree::span`, or `Group::span_open` and `Group::span_close`, with
/// `Span::start` and `Span::end`: where a token, or the delimiters of a group,
/// stand in the text they were read from.
#[verifier::external_body]
pub(crate) fn extents_of(tree: &TokenTree) -> (r: (Extent, Extent))
    requires
        is_tree(tree_tokens(*tree)),
    ensures
        r.0 == tree_tokens(*tree)[0].open,
        r.1 == tree_tokens(*tree)[0].close,
{
    let point = |p: proc_macro2::LineColumn| LineColumn { line: p.line, column: p.column };
    let extent = |s: Span| Extent { start: point(s.start()), end: point(s.end()) };
    match tree {
        TokenTree::Group(g) => (extent(g.span_open()), extent(g.span_close())),
        leaf => (extent(leaf.span()), extent(leaf.span())),
    }
}

/// `Group::stream`: what is in a group, if the tree is one.
#[verifier::external_body]
pub(crate) fn inner_of(tree: &TokenTree) -> (r: Option<TokenStream>)
    requires
        is_tree(tree_tokens(*tree)),
    ensures
        match r {
            Some(inner) => tree_tokens(*tree)[0].kind is Group && tree_tokens(*tree).skip(1)
                == stream_tokens(inner),
            None => tree_tokens(*tree)[0].kind !is Group,
        },
{
    match tree {
        TokenTree::Group(g) => Some(g.stream()),
        _ => None,
    }
}

/// `Group::new`: a group that stands in no source text.
#[verifier::external_body]
pub(crate) fn new_group(delimiter: Delimiter, inner: TokenStream) -> (r: TokenTree)
    ensures
        tree_tokens(r) == grouped(delimiter, stream_tokens(inner)),
{
    let outside = match delimiter {
        Delimiter::Parenthesis => proc_macro2::Delimiter::Parenthesis,
        Delimiter::Brace => proc_macro2::Delimiter::Brace,
        Delimiter::Bracket => proc_macro2::Delimiter::Bracket,
        Delimiter::Invisible => proc_macro2::Delimiter::None,
    };
    TokenTree::Group(Group::new(outside, inner))
}

proof fn lemma_concat_push(trees: Seq<TokenTree>, tree: TokenTree)
    ensures
        concat(trees.push(tree)) == concat(trees) + tree_tokens(tree),
    decreases trees.len(),
{
    if trees.len() == 0 {
        assert(trees.push(tree).drop_first() =~= trees);
        assert(concat(trees.push(tree)) =~= concat(trees) + tree_tokens(tree));
    } else {
        assert(trees.push(tree).drop_first() =~= trees.drop_first().push(tree));
        lemma_concat_push(trees.drop_first(), tree);
        assert(concat(trees.push(tree)) =~= concat(trees) + tree_tokens(tree));
    }
}

proof fn lemma_concat_at(trees: Seq<TokenTree>, i: int)
    requires
        0 <= i < trees.len(),
    ensures
        concat(trees.skip(i)) == tree_tokens(trees[i]) + concat(trees.skip(i + 1)),
        tree_tokens(trees[i]).len() <= concat(trees).len(),
        concat(trees.take(i)) + tree_tokens(trees[i]) == concat(trees.take(i + 1)),
    decreases trees.len(),
{
    assert(trees.skip(i).drop_first() =~= trees.skip(i + 1));
    assert(trees.take(i + 1) =~= trees.take(i).push(trees[i]));
    lemma_concat_push(trees.take(i), trees[i]);
    if i > 0 {
        lemma_concat_at(trees.drop_first(), i - 1);
    }
}

/// Groups of two lists, one behind the other, end where they did.
proof fn lemma_nested_concat(a: Seq<TokenView>, b: Seq<TokenView>)
    requires
        are_nested(a),
        are_nested(b),
    ensures
        are_nested(a + b),
{
    let c = a + b;
    let n = a.len() as int;
    assert forall|k: int| 0 <= k < c.len() && (#[trigger] c[k]).kind is Group implies k + 1
        + c[k].size <= c.len() by {
        if k < n {
            assert(c[k] == a[k]);
        } else {
            assert(c[k] == b[k - n]);
        }
    }
    assert forall|j: int| 0 <= j < c.len() && (#[trigger] c[j]).kind is Group implies ends_within(
        c,
        j + 1,
        j + 1 + c[j].size,
    ) by {
        if j < n {
            assert(c[j] == a[j]);
            assert(ends_within(a, j + 1, j + 1 + a[j].size));
            assert(ends_within(a, 0, n));
            assert forall|k: int|
                j + 1 <= k < j + 1 + c[j].size && (#[trigger] c[k]).kind is Group implies k + 1
                + c[k].size <= j + 1 + c[j].size by {
                assert(c[k] == a[k]);
            }
        } else {
            assert(c[j] == b[j - n]);
            assert(ends_within(b, j - n + 1, j - n + 1 + b[j - n].size));
            assert(ends_within(b, 0, b.len() as int));
            assert forall|k: int|
                j + 1 <= k < j + 1 + c[j].size && (#[trigger] c[k]).kind is Group implies k + 1
                + c[k].size <= j + 1 + c[j].size by {
                assert(c[k] == b[k - n]);
            }
        }
    }
}

/// A group of what is nested, and any other token, is nested.
proof fn lemma_nested_tree(ts: Seq<TokenView>)
    requires
        is_tree(ts),
        ts[0].kind is Group ==> are_nested(ts.skip(1)),
    ensures
        are_nested(ts),
{
    let inner = ts.skip(1);
    if ts[0].kind is Group {
        assert forall|k: int| 1 <= k < ts.len() && (#[trigger] ts[k]).kind is Group implies k + 1
            + ts[k].size <= ts.len() by {
            assert(ts[k] == inner[k - 1]);
            assert(ends_within(inner, 0, inner.len() as int));
        }
        assert forall|j: int| 0 <= j < ts.len() && (#[trigger] ts[j]).kind is Group implies ends_within(
            ts,
            j + 1,
            j + 1 + ts[j].size,
        ) by {
            if j > 0 {
                assert(ts[j] == inner[j - 1]);
                assert(ends_within(inner, j, j + inner[j - 1].size));
                assert(ends_within(inner, 0, inner.len() as int));
                assert forall|k: int|
                    j + 1 <= k < j + 1 + ts[j].size && (#[trigger] ts[k]).kind is Group implies k + 1
                    + ts[k].size <= j + 1 + ts[j].size by {
                    assert(ts[k] == inner[k - 1]);
                }
            }
        }
    }
}

/// Lays the trees out flat behind `out`.
fn flatten(trees: &Vec<TokenTree>, out: &mut Vec<Token>)
    requires
        forall|i: int| 0 <= i < trees@.len() ==> is_tree(tree_tokens(#[trigger] trees@[i])),
    ensures
        views(final(out)@) == views(old(out)@) + concat(trees@),
        are_nested(concat(trees@)),
    decreases concat(trees@).len(),
{
    let ghost start = views(out@);
    assert(start + concat(trees@.take(0)) =~= start);
    let mut i: usize = 0;
    while i < trees.len()
        invariant
            i <= trees@.len(),
            forall|j: int| 0 <= j < trees@.len() ==> is_tree(tree_tokens(#[trigger] trees@[j])),
            views(out@) == start + concat(trees@.take(i as int)),
            are_nested(concat(trees@.take(i as int))),
        decreases trees@.len() - i,
    {
        let tree: &TokenTree = &trees[i];
        let ghost ts = tree_tokens(*tree);
        let kind: TokenKind = kind_of(tree);
        let (open, close) = extents_of(tree);
        let text: String = text_of(tree);
        let at: usize = out.len();
        let ghost before = out@;
        let ghost token = Token { kind, open, close, size: 0, text };
        out.push(Token { kind, open, close, size: 0, text });
        proof {
            lemma_concat_at(trees@, i as int);
            assert(views(out@) =~= views(before).push(token@));
        }
        if let Some(inner) = inner_of(tree) {
            let inner_trees: Vec<TokenTree> = into_trees(inner);
            let ghost pushed = out@;
            flatten(&inner_trees, out);
            proof {
                assert(views(out@).len() == views(pushed).len() + stream_tokens(inner).len());
                assert(views(pushed).len() == at + 1);
                assert(views(out@).len() == out@.len());
            }
            let size: usize = out.len() - at - 1;
            let ghost flat = out@;
            assert(views(flat)[at as int] == token@);
            out[at].size = size;
            proof {
                let token = Token { size, ..token };
                assert(flat[at as int].text@ == token.text@);
                assert(out@[at as int]@ == token@);
                assert(views(out@) =~= views(flat).update(at as int, token@));
                assert(views(out@) =~= views(before).push(token@) + stream_tokens(inner));
                assert(ts =~= seq![ts[0]] + ts.skip(1));
                assert(token@ == ts[0]);
                assert(views(out@) =~= views(before) + ts);
            }
        } else {
            proof {
                assert(views(out@) =~= views(before) + ts);
            }
        }
        proof {
            assert(views(before) + ts =~= start + (concat(trees@.take(i as int)) + ts));
            lemma_nested_tree(ts);
            lemma_nested_concat(concat(trees@.take(i as int)), ts);
        }
        i = i + 1;
    }
    assert(trees@.take(trees@.len() as int) =~= trees@);
}

/// The tokens of the trees, laid out flat.
pub(crate) fn tokens_of(trees: &Vec<TokenTree>) -> (r: Vec<Token>)
    requires
        forall|i: int| 0 <= i < trees@.len() ==> is_tree(tree_tokens(#[trigger] trees@[i])),
    ensures
        views(r@) == concat(trees@),
        are_nested(views(r@)),
{
    let mut r: Vec<Token> = Vec::new();
    flatten(trees, &mut r);
    assert(views(r@) =~= concat(trees@));
    r
}

/// What is left of a tree and of what follows it.
proof fn lemma_masked_tree(tree: Seq<TokenView>, rest: Seq<TokenView>, keep: Seq<bool>)
    requires
        is_tree(tree),
        keep.len() == tree.len() + rest.len(),
    ensures
        masked(tree + rest, keep) == (if !keep[0] {
            Seq::empty()
        } else {
            match tree[0].kind {
                TokenKind::Group(delimiter) => grouped(
                    delimiter,
                    masked(tree.skip(1), keep.subrange(1, tree.len() as int)),
                ),
                _ => tree,
            }
        }) + masked(rest, keep.skip(tree.len() as int)),
{
    let all = tree + rest;
    let n = tree.len() as int;
    assert(tree_len(all) == n);
    assert(all.skip(n) =~= rest);
    assert(all.subrange(1, n) =~= tree.skip(1));
    assert(tree[0].kind !is Group ==> tree =~= seq![tree[0]]);
    assert(!keep[0] ==> Seq::empty() + masked(rest, keep.skip(n)) =~= masked(rest, keep.skip(n)));
}

/// The trees, laid out flat in `tokens` from `at` on, without those that `keep`
/// does not keep.
pub(crate) fn prune(trees: Vec<TokenTree>, tokens: &Vec<Token>, keep: &Vec<bool>, at: usize) -> (r:
    TokenStream)
    requires
        forall|i: int| 0 <= i < trees@.len() ==> is_tree(tree_tokens(#[trigger] trees@[i])),
        tokens@.len() == keep@.len(),
        at + concat(trees@).len() <= tokens@.len(),
        views(tokens@).subrange(at as int, at + concat(trees@).len()) == concat(trees@),
    ensures
        stream_tokens(r) == masked(
            concat(trees@),
            keep@.subrange(at as int, at + concat(trees@).len()),
        ),
    decreases concat(trees@).len(),
{
    let ghost all = trees@;
    let ghost end = at + concat(all).len();
    let ghost whole = masked(concat(all), keep@.subrange(at as int, end));
    let mut out: Vec<TokenTree> = Vec::new();
    let mut pos: usize = at;
    let total: usize = tokens.len();
    proof {
        assert(all.skip(0) =~= all);
        assert(concat(out@) + whole =~= whole);
    }
    for tree in iter: trees
        invariant
            iter.seq() == all,
            all == trees@,
            total == tokens@.len() == keep@.len(),
            forall|i: int| 0 <= i < all.len() ==> is_tree(tree_tokens(#[trigger] all[i])),
            end == at + concat(all).len() <= tokens@.len(),
            at <= pos <= end,
            views(tokens@).subrange(pos as int, end) == concat(all.skip(iter.index())),
            whole == concat(out@) + masked(concat(all.skip(iter.index())), keep@.subrange(pos as int, end)),
    {
        let ghost i = iter.index();
        let ghost rest = concat(all.skip(i));
        let ghost ts = tree_tokens(tree);
        let ghost kept = keep@.subrange(pos as int, end);
        let ghost done = out@;
        proof {
            lemma_concat_at(all, i);
            lemma_masked_tree(ts, concat(all.skip(i + 1)), kept);
            assert(rest[0] == ts[0]);
            assert(views(tokens@)[pos as int] == rest[0]);
            assert(kept.skip(ts.len() as int) =~= keep@.subrange(pos + ts.len(), end));
            assert(views(tokens@).subrange(pos + ts.len(), end) =~= rest.skip(ts.len() as int));
            assert(rest.skip(ts.len() as int) =~= concat(all.skip(i + 1)));
        }
        let size: usize = match tokens[pos].kind {
            TokenKind::Group(_) => tokens[pos].size,
            _ => 0,
        };
        if keep[pos] {
            match tokens[pos].kind {
                TokenKind::Group(delimiter) => {
                    if let Some(inner) = inner_of(&tree) {
                        let inner_trees: Vec<TokenTree> = into_trees(inner);
                        proof {
                            assert(views(tokens@).subrange(pos + 1, pos + 1 + size) =~= rest.subrange(
                                1,
                                1 + size,
                            ));
                            assert(rest.subrange(1, 1 + size) =~= ts.skip(1));
                            assert(kept.subrange(1, 1 + size) =~= keep@.subrange(pos + 1, pos + 1 + size));
                        }
                        let stream: TokenStream = prune(inner_trees, tokens, keep, pos + 1);
                        let group: TokenTree = new_group(delimiter, stream);
                        proof {
                            lemma_concat_push(done, group);
                        }
                        out.push(group);
                    }
                },
                _ => {
                    proof {
                        lemma_concat_push(done, tree);
                    }
                    out.push(tree);
                },
            }
        } else {
            assert(Seq::<TokenView>::empty() + masked(concat(all.skip(i + 1)), kept.skip(ts.len() as int))
                =~= masked(concat(all.skip(i + 1)), kept.skip(ts.len() as int)));
        }
        pos = pos + 1 + size;
        proof {
            let next = masked(concat(all.skip(i + 1)), keep@.subrange(pos as int, end));
            assert(whole =~= concat(out@) + next);
        }
    }
    proof {
        assert(all.skip(all.len() as int) =~= Seq::<TokenTree>::empty());
        assert(concat(out@) + masked(Seq::empty(), keep@.subrange(pos as int, end)) =~= concat(out@));
    }
    from_trees(out)
}

} // verus!
