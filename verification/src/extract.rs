//! Extraction of the comments of a source text.
use vstd::prelude::*;
use vstd::utf8::*;
use crate::comment::{self, Comment, CommentView};
use crate::comment_map::CommentMap;
use crate::location::{self, Extent, HashLineColumn, LineColumn};
use crate::text;
use crate::tokens::{self, Token, TokenKind, TokenView};
use proc_macro2::{LexError, TokenStream, TokenTree};

verus! {

/// The line feed as a byte.
pub const LINE_FEED: u8 = 10;

/// Where the lines of a text start, counted in bytes: at its first byte and
/// behind each line feed that something follows.
pub open spec fn line_starts(bytes: Seq<u8>) -> Seq<int>
    decreases bytes.len(),
{
    if bytes.len() == 0 {
        Seq::empty()
    } else {
        let before = line_starts(bytes.drop_last());
        let p = bytes.len() - 1;
        if p == 0 || bytes[p - 1] == LINE_FEED {
            before.push(p)
        } else {
            before
        }
    }
}

/// The byte offset of a position: that of its line, and its column. There is
/// none on a line that the text does not have.
pub open spec fn offset(source: Seq<char>, at: LineColumn) -> Option<int> {
    let starts = line_starts(encode_utf8(source));
    if 1 <= at.line <= starts.len() && starts[at.line - 1] + at.column <= usize::MAX {
        Some(starts[at.line - 1] + at.column)
    } else {
        None
    }
}

/// How far the extraction has come.
pub struct Progress {
    /// The offset behind the last token.
    pub last: int,
    /// The comments found, by the position of the token behind them.
    pub comments: Map<HashLineColumn, Seq<CommentView>>,
    /// Which of the tokens passed so far are kept.
    pub keep: Seq<bool>,
}

/// Reads the comments between the last token and the position `end`.
pub open spec fn read_gap(source: Seq<char>, p: Progress, end: LineColumn) -> Option<Progress> {
    match offset(source, end) {
        None => None,
        Some(e) => match text::slice(source, p.last, e) {
            None => None,
            Some(s) => match comment::gap(s) {
                None => None,
                Some(comments) => Some(
                    if comments.len() == 0 {
                        p
                    } else {
                        Progress { comments: p.comments.insert(HashLineColumn(end), comments), ..p }
                    },
                ),
            },
        },
    }
}

/// Moves on to the position `end`.
pub open spec fn move_to(source: Seq<char>, p: Progress, end: LineColumn) -> Option<Progress> {
    match offset(source, end) {
        None => None,
        Some(e) => Some(Progress { last: e, ..p }),
    }
}

/// Reads the comments before what stands at `at` and moves behind it.
pub open spec fn pass(source: Seq<char>, p: Progress, at: Extent) -> Option<Progress> {
    match read_gap(source, p, at.start) {
        None => None,
        Some(q) => move_to(source, q, at.end),
    }
}

/// `p` with the next `n` tokens kept or not.
pub open spec fn mark(p: Progress, n: int, kept: bool) -> Progress {
    Progress { keep: p.keep + Seq::new(n as nat, |i: int| kept), ..p }
}

/// Whether a punctuation token is a number sign that the text does not have: the
/// tokenizer gives a doc comment as an attribute, and the text has a slash there.
pub open spec fn is_doc_comment(source: Seq<char>, sign: char, at: Extent) -> Option<bool> {
    match offset(source, at.start) {
        None => None,
        Some(o) => if sign != '#' {
            Some(false)
        } else {
            match text::slice(source, o, o + 1) {
                None => None,
                Some(s) => Some(s == seq!['/']),
            }
        },
    }
}

/// The number of tokens in the leading trees that start before `end`.
pub open spec fn run_before(tokens: Seq<TokenView>, end: LineColumn) -> int
    decreases tokens.len(),
{
    if tokens.len() == 0 || !location::precedes(tokens[0].open.start, end) {
        0
    } else {
        let n = tokens::tree_len(tokens);
        n + run_before(tokens.skip(n), end)
    }
}

/// A run of leading trees is part of the tokens.
pub proof fn lemma_run_before(tokens: Seq<TokenView>, end: LineColumn)
    ensures
        0 <= run_before(tokens, end) <= tokens.len(),
    decreases tokens.len(),
{
    if tokens.len() > 0 && location::precedes(tokens[0].open.start, end) {
        lemma_run_before(tokens.skip(tokens::tree_len(tokens)), end);
    }
}

/// The extraction over `tokens`. In the gap before an identifier, a literal or a
/// delimiter it reads comments; before punctuation it does not. A doc comment
/// that the tokenizer gave as an attribute is left out and stays in the gap.
#[verifier::opaque]
pub open spec fn walk(source: Seq<char>, tokens: Seq<TokenView>, p: Progress) -> Option<Progress>
    decreases tokens.len(),
{
    if tokens.len() == 0 {
        Some(p)
    } else {
        let t = tokens[0];
        let n = tokens::tree_len(tokens);
        match t.kind {
            TokenKind::Group(_) => match pass(source, p, t.open) {
                None => None,
                Some(opened) => match walk(source, tokens.subrange(1, n), mark(opened, 1, true)) {
                    None => None,
                    Some(inner) => match pass(source, inner, t.close) {
                        None => None,
                        Some(closed) => walk(source, tokens.skip(n), closed),
                    },
                },
            },
            TokenKind::Punct(sign, _) => match is_doc_comment(source, sign, t.open) {
                None => None,
                Some(true) => {
                    proof {
                        lemma_run_before(tokens.skip(1), t.open.end);
                    }
                    let m = 1 + run_before(tokens.skip(1), t.open.end);
                    walk(source, tokens.skip(m), mark(p, m, false))
                },
                Some(false) => match move_to(source, p, t.open.end) {
                    None => None,
                    Some(q) => walk(source, tokens.skip(1), mark(q, 1, true)),
                },
            },
            _ => match pass(source, p, t.open) {
                None => None,
                Some(q) => walk(source, tokens.skip(1), mark(q, 1, true)),
            },
        }
    }
}

/// The start of an extraction.
pub open spec fn start() -> Progress {
    Progress { last: 0, comments: Map::empty(), keep: Seq::empty() }
}

/// The state of an extraction.
pub struct Walker<'a> {
    pub source: &'a str,
    /// The starting offset of each line.
    pub line_lookup: Vec<usize>,
    pub comments: CommentMap,
    pub last_offset: usize,
    pub keep: Vec<bool>,
}

/// Where the lines of `source` start.
pub fn line_lookup(source: &str) -> (r: Vec<usize>)
    ensures
        r@.map_values(|p: usize| p as int) == line_starts(encode_utf8(source@)),
{
    let bytes: &[u8] = source.as_bytes();
    let mut r: Vec<usize> = Vec::new();
    let mut i: usize = 0;
    assert(bytes@.take(0) =~= Seq::<u8>::empty());
    assert(r@.map_values(|p: usize| p as int) =~= Seq::<int>::empty());
    while i < bytes.len()
        invariant
            i <= bytes@.len(),
            r@.map_values(|p: usize| p as int) == line_starts(bytes@.take(i as int)),
        decreases bytes@.len() - i,
    {
        let ghost before = r@;
        if i == 0 || bytes[i - 1] == LINE_FEED {
            r.push(i);
        }
        proof {
            let some = bytes@.take(i + 1);
            assert(some.drop_last() =~= bytes@.take(i as int));
            assert(before.push(i).map_values(|p: usize| p as int) =~= before.map_values(
                |p: usize| p as int,
            ).push(i as int));
        }
        i = i + 1;
    }
    assert(bytes@.take(bytes@.len() as int) =~= bytes@);
    r
}

impl<'a> Walker<'a> {
    /// The map is in order, and the lines are those of the source.
    pub open spec fn wf(self) -> bool {
        &&& self.comments.wf()
        &&& self.line_lookup@.map_values(|p: usize| p as int) == line_starts(
            encode_utf8(self.source@),
        )
    }

    /// How far the extraction has come.
    pub open spec fn progress(self) -> Progress {
        Progress {
            last: self.last_offset as int,
            comments: self.comments@,
            keep: self.keep@,
        }
    }

    /// Same source, and a progress of `p`.
    pub open spec fn advanced(self, from: Walker<'a>, p: Option<Progress>) -> bool {
        &&& self.wf()
        &&& self.source == from.source
        &&& p == Some(self.progress())
    }

    /// The byte offset of a position.
    pub fn to_offset(&self, loc: LineColumn) -> (r: Option<usize>)
        requires
            self.wf(),
        ensures
            match r {
                Some(o) => offset(self.source@, loc) == Some(o as int),
                None => offset(self.source@, loc) is None,
            },
    {
        let ghost starts = line_starts(encode_utf8(self.source@));
        assert(starts.len() == self.line_lookup@.len());
        if loc.line == 0 || loc.line > self.line_lookup.len() {
            return None;
        }
        assert(starts[loc.line - 1] == self.line_lookup@[loc.line - 1]);
        self.line_lookup[loc.line - 1].checked_add(loc.column)
    }

    /// Reads the comments between the last token and `end`.
    pub fn extract(&mut self, end: LineColumn) -> (r: bool)
        requires
            old(self).wf(),
        ensures
            r ==> final(self).advanced(
                *old(self),
                read_gap(old(self).source@, old(self).progress(), end),
            ),
            !r ==> read_gap(old(self).source@, old(self).progress(), end) is None,
    {
        let offset: usize = match self.to_offset(end) {
            None => {
                return false;
            },
            Some(offset) => offset,
        };
        let gap_text: &str = match text::slice_of(self.source, self.last_offset, offset) {
            None => {
                return false;
            },
            Some(gap_text) => gap_text,
        };
        let comments: Vec<Comment> = match comment::gap_comments(gap_text) {
            None => {
                return false;
            },
            Some(comments) => comments,
        };
        if comments.len() > 0 {
            self.comments.insert(HashLineColumn(end), comments);
        }
        true
    }

    /// Moves on to `end`.
    pub fn move_to(&mut self, end: LineColumn) -> (r: bool)
        requires
            old(self).wf(),
        ensures
            r ==> final(self).advanced(
                *old(self),
                move_to(old(self).source@, old(self).progress(), end),
            ),
            !r ==> move_to(old(self).source@, old(self).progress(), end) is None,
    {
        match self.to_offset(end) {
            None => false,
            Some(offset) => {
                self.last_offset = offset;
                true
            },
        }
    }

    /// Reads the comments before what stands at `at` and moves behind it.
    pub fn pass(&mut self, at: Extent) -> (r: bool)
        requires
            old(self).wf(),
        ensures
            r ==> final(self).advanced(
                *old(self),
                pass(old(self).source@, old(self).progress(), at),
            ),
            !r ==> pass(old(self).source@, old(self).progress(), at) is None,
    {
        self.extract(at.start) && self.move_to(at.end)
    }

    /// Marks the next `n` tokens.
    pub fn mark(&mut self, n: usize, kept: bool)
        requires
            old(self).wf(),
        ensures
            final(self).advanced(*old(self), Some(mark(old(self).progress(), n as int, kept))),
    {
        let mut i: usize = 0;
        while i < n
            invariant
                i <= n,
                self.wf(),
                self.source == old(self).source,
                self.comments == old(self).comments,
                self.last_offset == old(self).last_offset,
                self.keep@ == old(self).keep@ + Seq::new(i as nat, |j: int| kept),
            decreases n - i,
        {
            self.keep.push(kept);
            assert(self.keep@ =~= old(self).keep@ + Seq::new((i + 1) as nat, |j: int| kept));
            i = i + 1;
        }
        assert(self.progress().keep =~= mark(old(self).progress(), n as int, kept).keep);
    }

    /// Whether a punctuation token stands for a doc comment.
    pub fn is_doc_comment(&self, sign: char, at: Extent) -> (r: Option<bool>)
        requires
            self.wf(),
        ensures
            r == is_doc_comment(self.source@, sign, at),
    {
        let offset: usize = match self.to_offset(at.start) {
            None => {
                return None;
            },
            Some(offset) => offset,
        };
        if sign != '#' {
            return Some(false);
        }
        if offset >= text::len_of(self.source) {
            return None;
        }
        match text::slice_of(self.source, offset, offset + 1) {
            None => None,
            Some(s) => {
                let cs: Vec<char> = text::chars_of(s);
                let r: bool = cs.len() == 1 && cs[0] == '/';
                assert(r == (s@ =~= seq!['/']));
                Some(r)
            },
        }
    }
}

/// The end of the tree that starts at `at`.
fn tree_end(list: &Vec<Token>, at: usize, hi: usize) -> (r: usize)
    requires
        at < hi <= list@.len(),
    ensures
        at < r <= hi,
        r - at == tokens::tree_len(tokens::views(list@).subrange(at as int, hi as int)),
{
    match list[at].kind {
        TokenKind::Group(_) => if list[at].size < hi - at {
            at + 1 + list[at].size
        } else {
            hi
        },
        _ => at + 1,
    }
}

/// The end of the leading trees in `at..hi` that start before `end`.
fn skip_run(list: &Vec<Token>, at: usize, hi: usize, end: LineColumn) -> (r: usize)
    requires
        at <= hi <= list@.len(),
    ensures
        at <= r <= hi,
        r - at == run_before(tokens::views(list@).subrange(at as int, hi as int), end),
{
    let ghost all = tokens::views(list@);
    let mut r: usize = at;
    while r < hi && list[r].open.start.before(&end)
        invariant
            at <= r <= hi <= list@.len(),
            all == tokens::views(list@),
            run_before(all.subrange(at as int, hi as int), end) == (r - at) + run_before(
                all.subrange(r as int, hi as int),
                end,
            ),
        decreases hi - r,
    {
        let next: usize = tree_end(list, r, hi);
        proof {
            let s = all.subrange(r as int, hi as int);
            assert(s[0] == list@[r as int]@);
            assert(s.skip(next - r) =~= all.subrange(next as int, hi as int));
        }
        r = next;
    }
    proof {
        let s = all.subrange(r as int, hi as int);
        assert(r < hi ==> s[0] == list@[r as int]@);
    }
    r
}

/// Extracts over the tokens `lo..hi`.
fn walk_tokens(list: &Vec<Token>, lo: usize, hi: usize, walker: &mut Walker) -> (r: bool)
    requires
        lo <= hi <= list@.len(),
        old(walker).wf(),
    ensures
        ({
            let result = walk(
                old(walker).source@,
                tokens::views(list@).subrange(lo as int, hi as int),
                old(walker).progress(),
            );
            &&& r ==> final(walker).advanced(*old(walker), result)
            &&& !r ==> result is None
        }),
    decreases hi - lo,
{
    let ghost all = tokens::views(list@);
    let ghost source = walker.source@;
    let ghost result = walk(source, all.subrange(lo as int, hi as int), walker.progress());
    let mut at: usize = lo;
    while at < hi
        invariant
            lo <= at <= hi <= list@.len(),
            all == tokens::views(list@),
            walker.wf(),
            walker.source == old(walker).source,
            source == walker.source@,
            result == walk(
                old(walker).source@,
                all.subrange(lo as int, hi as int),
                old(walker).progress(),
            ),
            result == walk(source, all.subrange(at as int, hi as int), walker.progress()),
        decreases hi - at,
    {
        let token: &Token = &list[at];
        let next: usize = tree_end(list, at, hi);
        let ghost s = all.subrange(at as int, hi as int);
        proof {
            reveal(walk);
            assert(s[0] == token@);
            assert(s.skip(next - at) =~= all.subrange(next as int, hi as int));
            assert(s.skip(1) =~= all.subrange(at + 1, hi as int));
            assert(s.subrange(1, next - at) =~= all.subrange(at + 1, next as int));
        }
        match token.kind {
            TokenKind::Group(_) => {
                if !walker.pass(token.open) {
                    return false;
                }
                walker.mark(1, true);
                if !walk_tokens(list, at + 1, next, walker) {
                    return false;
                }
                if !walker.pass(token.close) {
                    return false;
                }
                at = next;
            },
            TokenKind::Punct(sign, _) => {
                match walker.is_doc_comment(sign, token.open) {
                    None => {
                        return false;
                    },
                    Some(true) => {
                        let end: usize = skip_run(list, at + 1, hi, token.open.end);
                        walker.mark(end - at, false);
                        assert(s.skip(end - at) =~= all.subrange(end as int, hi as int));
                        at = end;
                    },
                    Some(false) => {
                        if !walker.move_to(token.open.end) {
                            return false;
                        }
                        walker.mark(1, true);
                        at = next;
                    },
                }
            },
            _ => {
                if !walker.pass(token.open) {
                    return false;
                }
                walker.mark(1, true);
                at = next;
            },
        }
    }
    proof {
        reveal(walk);
        assert(all.subrange(hi as int, hi as int).len() == 0);
    }
    true
}

/// Each token that the extraction passes is marked once.
pub proof fn lemma_keep_len(source: Seq<char>, tokens: Seq<TokenView>, p: Progress)
    ensures
        walk(source, tokens, p) matches Some(q) ==> q.keep.len() == p.keep.len() + tokens.len(),
    decreases tokens.len(),
{
    reveal(walk);
    if tokens.len() > 0 {
        let t = tokens[0];
        let n = tokens::tree_len(tokens);
        match t.kind {
            TokenKind::Group(_) => {
                if let Some(opened) = pass(source, p, t.open) {
                    lemma_keep_len(source, tokens.subrange(1, n), mark(opened, 1, true));
                    if let Some(inner) = walk(source, tokens.subrange(1, n), mark(opened, 1, true)) {
                        if let Some(closed) = pass(source, inner, t.close) {
                            lemma_keep_len(source, tokens.skip(n), closed);
                        }
                    }
                }
            },
            TokenKind::Punct(sign, _) => {
                lemma_run_before(tokens.skip(1), t.open.end);
                let m = 1 + run_before(tokens.skip(1), t.open.end);
                lemma_keep_len(source, tokens.skip(m), mark(p, m, false));
                if let Some(q) = move_to(source, p, t.open.end) {
                    lemma_keep_len(source, tokens.skip(1), mark(q, 1, true));
                }
            },
            _ => {
                if let Some(q) = pass(source, p, t.open) {
                    lemma_keep_len(source, tokens.skip(1), mark(q, 1, true));
                }
            },
        }
    }
}

/// The comments of `source` and which of its tokens are no doc comments, where
/// each token stands in the text and the text between tokens can be read.
pub fn mark_comments(source: &str, list: &Vec<Token>) -> (r: Option<(CommentMap, Vec<bool>)>)
    ensures
        match r {
            Some((comments, keep)) => {
                &&& walk(source@, tokens::views(list@), start()) matches Some(p)
                &&& comments.wf()
                &&& comments@ == p.comments
                &&& keep@ == p.keep
                &&& keep@.len() == list@.len()
            },
            None => walk(source@, tokens::views(list@), start()) is None,
        },
{
    let mut walker: Walker = Walker {
        source,
        line_lookup: line_lookup(source),
        comments: CommentMap::new(),
        last_offset: 0,
        keep: Vec::new(),
    };
    proof {
        assert(walker.progress().keep =~= start().keep);
        assert(tokens::views(list@).subrange(0, list@.len() as int) =~= tokens::views(list@));
        lemma_keep_len(source@, tokens::views(list@), start());
    }
    if walk_tokens(list, 0, list.len(), &mut walker) {
        Some((walker.comments, walker.keep))
    } else {
        None
    }
}

/// Why the comments of a source text cannot be extracted.
#[derive(Debug)]
pub enum ExtractError {
    /// The text cannot be tokenized from the given place on.
    Lex(LexError, LineColumn),
    /// A token does not stand where its position says, or the text between two
    /// tokens is not what can stand there.
    Misplaced,
}

/// The comments of a source text, by the position of the token behind them, and
/// its tokens without the attributes that stand for doc comments. A text that is
/// not empty has to end in a line feed.
pub fn extract_comments(source: &str) -> (r: Result<(CommentMap, TokenStream), ExtractError>)
    requires
        source@.len() > 0 ==> source@.last() == '\n',
        source@.len() < u32::MAX,
    ensures
        match tokens::lexed(source@) {
            Err(place) => r matches Err(ExtractError::Lex(e, at)) && tokens::error_place(e) == place
                && at == place,
            Ok(list) => match walk(source@, list, start()) {
                None => r == Err::<(CommentMap, TokenStream), _>(ExtractError::Misplaced),
                Some(p) => {
                    &&& r matches Ok((comments, stream))
                    &&& comments.wf()
                    &&& comments@ == p.comments
                    &&& tokens::stream_tokens(stream) == tokens::masked(list, p.keep)
                },
            },
        },
        tokens::lexed(source@) matches Ok(list) ==> tokens::are_nested(list),
{
    let stream: TokenStream = match tokens::lex(source) {
        Ok(stream) => stream,
        Err(e) => {
            let at: LineColumn = tokens::place_of(&e);
            return Err(ExtractError::Lex(e, at));
        },
    };
    let trees: Vec<TokenTree> = tokens::into_trees(stream);
    let list: Vec<Token> = tokens::tokens_of(&trees);
    match mark_comments(source, &list) {
        None => Err(ExtractError::Misplaced),
        Some((comments, keep)) => {
            proof {
                assert(tokens::views(list@).len() == list@.len());
                assert(tokens::views(list@).subrange(0, list@.len() as int) =~= tokens::views(list@));
                assert(keep@.subrange(0, list@.len() as int) =~= keep@);
            }
            Ok((comments, tokens::prune(trees, &list, &keep, 0)))
        },
    }
}

} // verus!
