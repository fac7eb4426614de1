//! Comments and the grammar that finds them in the text between two tokens.
use vstd::prelude::*;
use vstd::string::*;
use crate::text;

verus! {

/// What a comment documents.
#[derive(Clone, Copy, PartialEq, Eq, Debug, Structural)]
pub enum CommentMode {
    /// An ordinary comment.
    Normal,
    /// Documentation of what encloses it.
    DocInner,
    /// Documentation of what follows it.
    DocOuter,
}

/// One comment: its lines, joined by line feeds.
#[derive(PartialEq, Eq, Debug)]
pub struct Comment {
    pub mode: CommentMode,
    pub lines: String,
}

/// The model of a [`Comment`].
pub struct CommentView {
    pub mode: CommentMode,
    pub lines: Seq<char>,
}

impl View for Comment {
    type V = CommentView;

    open spec fn view(&self) -> CommentView {
        CommentView { mode: self.mode, lines: self.lines@ }
    }
}

/// The models of a list of comments.
pub open spec fn views(comments: Seq<Comment>) -> Seq<CommentView> {
    comments.map_values(|c: Comment| c@)
}

/// A line of a comment, with the mode of the comment it was written in.
pub struct CommentLine {
    pub mode: CommentMode,
    pub line: Seq<char>,
}

/// A comment opens at `i`: two slashes, or a slash and an asterisk.
pub open spec fn opens_at(s: Seq<char>, i: int) -> bool {
    0 <= i && i + 1 < s.len() && s[i] == '/' && (s[i + 1] == '/' || s[i + 1] == '*')
}

/// Where the first comment of `s` opens, or the length of `s`.
pub open spec fn comment_start(s: Seq<char>) -> nat
    decreases s.len(),
{
    if s.len() == 0 || opens_at(s, 0) {
        0
    } else {
        1 + comment_start(s.drop_first())
    }
}

/// Where the comment delimiter that closes `depth` open block comments starts,
/// if `s` closes them. Delimiters are read from left to right and do not overlap.
pub open spec fn block_end(s: Seq<char>, depth: int) -> Option<nat>
    decreases s.len(),
{
    if s.len() < 2 {
        None
    } else if s[0] == '*' && s[1] == '/' {
        if depth <= 1 {
            Some(0)
        } else {
            after(2, block_end(s.skip(2), depth - 1))
        }
    } else if s[0] == '/' && s[1] == '*' {
        after(2, block_end(s.skip(2), depth + 1))
    } else {
        after(1, block_end(s.skip(1), depth))
    }
}

/// A position found behind `n` further characters.
pub open spec fn after(n: nat, found: Option<nat>) -> Option<nat> {
    match found {
        Some(k) => Some(n + k),
        None => None,
    }
}

/// A line of a block comment without its margin: white space around it and an
/// asterisk and a space before it.
pub open spec fn strip_margin(line: Seq<char>) -> Seq<char> {
    let t = text::trim(line);
    if t.len() >= 2 && t[0] == '*' && t[1] == ' ' {
        t.skip(2)
    } else {
        t
    }
}

/// The mode of a line comment, by the character behind the two slashes.
pub open spec fn line_mode(rest: Seq<char>) -> CommentMode {
    if rest.len() > 0 && rest[0] == '/' {
        CommentMode::DocOuter
    } else if rest.len() > 0 && rest[0] == '!' {
        CommentMode::DocInner
    } else {
        CommentMode::Normal
    }
}

/// What follows the opening of a line comment: `rest` without the character
/// that gives the mode.
pub open spec fn line_body(rest: Seq<char>) -> Seq<char> {
    if line_mode(rest) == CommentMode::Normal {
        rest
    } else {
        rest.skip(1)
    }
}

/// The lines of the block comment body `body`.
pub open spec fn block_lines(body: Seq<char>) -> Seq<CommentLine> {
    text::text_lines(body).map_values(
        |line: Seq<char>| CommentLine { mode: CommentMode::Normal, line: strip_margin(line) },
    )
}

/// `found` behind the lines `first`.
pub open spec fn prepend(first: Seq<CommentLine>, found: Option<Seq<CommentLine>>) -> Option<
    Seq<CommentLine>,
> {
    match found {
        Some(lines) => Some(first + lines),
        None => None,
    }
}

/// The comment lines of `s` in order. What is not in a comment is passed over.
/// There are none to give if a block comment does not end in `s`, or if `s` ends
/// directly behind the opening of a line comment.
#[verifier::opaque]
pub open spec fn comment_lines(s: Seq<char>) -> Option<Seq<CommentLine>>
    decreases s.len(),
{
    let k = comment_start(s) as int;
    if k + 1 >= s.len() {
        Some(Seq::empty())
    } else {
        let rest = s.skip(k + 2);
        if s[k + 1] == '/' {
            let body = line_body(rest);
            let n = text::find(body, '\n') as int;
            let line = CommentLine { mode: line_mode(rest), line: body.take(n) };
            if body.len() == 0 {
                None
            } else if n >= body.len() {
                Some(seq![line])
            } else {
                prepend(seq![line], comment_lines(body.skip(n + 1)))
            }
        } else {
            proof {
                lemma_block_end_bound(rest, 1);
            }
            match block_end(rest, 1) {
                None => None,
                Some(e) => prepend(
                    block_lines(rest.take(e as int)),
                    comment_lines(rest.skip(e as int + 2)),
                ),
            }
        }
    }
}

/// Lines joined by line feeds.
pub open spec fn join(lines: Seq<Seq<char>>) -> Seq<char>
    decreases lines.len(),
{
    if lines.len() == 0 {
        Seq::empty()
    } else if lines.len() == 1 {
        lines[0]
    } else {
        join(lines.drop_last()).push('\n') + lines.last()
    }
}

/// The comments that the lines form: a line of the same mode as the one before
/// it continues that comment, any other line starts a comment.
pub open spec fn comments_of(lines: Seq<CommentLine>) -> Seq<CommentView>
    decreases lines.len(),
{
    if lines.len() == 0 {
        Seq::empty()
    } else {
        let before = comments_of(lines.drop_last());
        let last = lines.last();
        if lines.len() > 1 && lines[lines.len() - 2].mode == last.mode {
            before.drop_last().push(
                CommentView {
                    mode: last.mode,
                    lines: before.last().lines.push('\n') + last.line,
                },
            )
        } else {
            before.push(CommentView { mode: last.mode, lines: last.line })
        }
    }
}

/// The comments in the text between two tokens.
pub open spec fn gap(s: Seq<char>) -> Option<Seq<CommentView>> {
    match comment_lines(s) {
        Some(lines) => Some(comments_of(lines)),
        None => None,
    }
}

/// The first comment opens where it is found to, and none opens before.
pub proof fn lemma_comment_start(s: Seq<char>)
    ensures
        comment_start(s) <= s.len(),
        comment_start(s) < s.len() ==> opens_at(s, comment_start(s) as int),
        forall|i: int| 0 <= i < comment_start(s) ==> !opens_at(s, i),
    decreases s.len(),
{
    if s.len() == 0 || opens_at(s, 0) {
    } else {
        let t = s.drop_first();
        lemma_comment_start(t);
        assert forall|i: int| 0 <= i < comment_start(s) implies !opens_at(s, i) by {
            if i > 0 {
                assert(!opens_at(t, i - 1));
            }
        }
        if comment_start(s) < s.len() {
            assert(opens_at(t, comment_start(t) as int));
        }
    }
}

/// A place where a comment opens, with none before it, is the one found.
pub proof fn lemma_comment_start_is(s: Seq<char>, k: int)
    requires
        0 <= k <= s.len(),
        k < s.len() ==> opens_at(s, k),
        forall|i: int| 0 <= i < k ==> !opens_at(s, i),
    ensures
        comment_start(s) == k,
{
    lemma_comment_start(s);
    let f = comment_start(s) as int;
    if f < k {
        assert(!opens_at(s, f));
    }
    if k < f {
        assert(!opens_at(s, k));
    }
}

/// The delimiter that ends a block comment stands within the text.
pub proof fn lemma_block_end_bound(s: Seq<char>, depth: int)
    ensures
        block_end(s, depth) matches Some(e) ==> e + 2 <= s.len(),
    decreases s.len(),
{
    if s.len() >= 2 {
        lemma_block_end_bound(s.skip(2), depth - 1);
        lemma_block_end_bound(s.skip(2), depth + 1);
        lemma_block_end_bound(s.skip(1), depth);
    }
}

/// Collects comment lines, joining those of one mode into one comment.
pub struct CommentBuffer {
    pub out: Vec<Comment>,
    pub mode: CommentMode,
    pub lines: Vec<String>,
}

/// The texts of a list of strings.
pub open spec fn texts(lines: Seq<String>) -> Seq<Seq<char>> {
    lines.map_values(|s: String| s@)
}

/// The pieces of `lines` joined by line feeds.
pub fn join_lines(lines: &Vec<String>) -> (r: String)
    ensures
        r@ == join(texts(lines@)),
{
    let mut r: String = String::new();
    let mut i: usize = 0;
    while i < lines.len()
        invariant
            i <= lines@.len(),
            r@ == join(texts(lines@.take(i as int))),
        decreases lines@.len() - i,
    {
        if i > 0 {
            r.push('\n');
        }
        r.append(lines[i].as_str());
        proof {
            let all = texts(lines@.take(i + 1));
            assert(all.drop_last() =~= texts(lines@.take(i as int)));
            assert(all.last() == lines@[i as int]@);
        }
        i = i + 1;
    }
    assert(lines@.take(lines@.len() as int) =~= lines@);
    r
}

impl CommentBuffer {
    /// The comments collected once the pending lines are closed.
    pub open spec fn closed_out(self) -> Seq<CommentView> {
        if self.lines@.len() == 0 {
            views(self.out@)
        } else {
            views(self.out@).push(CommentView { mode: self.mode, lines: join(texts(self.lines@)) })
        }
    }

    /// An empty buffer.
    pub fn new() -> (r: CommentBuffer)
        ensures
            r.closed_out() == Seq::<CommentView>::empty(),
            r.out@.len() == 0,
            r.mode == CommentMode::Normal,
            r.lines@.len() == 0,
    {
        let r = CommentBuffer { out: Vec::new(), mode: CommentMode::Normal, lines: Vec::new() };
        assert(views(r.out@) =~= Seq::<CommentView>::empty());
        r
    }

    /// Closes the pending lines into a comment; does nothing if there are none.
    pub fn flush(&mut self)
        ensures
            final(self).lines@.len() == 0,
            final(self).mode == old(self).mode,
            views(final(self).out@) == old(self).closed_out(),
            final(self).closed_out() == old(self).closed_out(),
    {
        if self.lines.len() == 0 {
            return ;
        }
        let lines: String = join_lines(&self.lines);
        self.out.push(Comment { mode: self.mode, lines });
        self.lines = Vec::new();
        assert(views(self.out@) =~= old(self).closed_out());
    }

    /// Adds a line. It continues the pending comment if the mode is the same,
    /// and starts another one if it is not.
    pub fn add(&mut self, mode: CommentMode, line: String)
        ensures
            final(self).lines@.len() > 0,
            final(self).mode == mode,
            final(self).closed_out() == if old(self).lines@.len() > 0 && old(self).mode == mode {
                let before = old(self).closed_out();
                before.drop_last().push(
                    CommentView { mode, lines: before.last().lines.push('\n') + line@ },
                )
            } else {
                old(self).closed_out().push(CommentView { mode, lines: line@ })
            },
    {
        if self.mode != mode && self.lines.len() > 0 {
            self.flush();
        }
        self.mode = mode;
        let ghost pending = self.lines@;
        self.lines.push(line);
        proof {
            let all = texts(self.lines@);
            assert(all.drop_last() =~= texts(pending));
            assert(all.last() == line@);
            if old(self).lines@.len() > 0 && old(self).mode == mode {
                assert(old(self).closed_out().drop_last() =~= views(self.out@));
                assert(join(all) =~= join(texts(pending)).push('\n') + line@);
            } else {
                assert(all =~= seq![line@]);
            }
        }
    }
}

/// Where the first comment in `lo..hi` opens, or `hi`.
fn find_start(cs: &Vec<char>, lo: usize, hi: usize) -> (r: usize)
    requires
        lo <= hi <= cs@.len(),
    ensures
        lo <= r <= hi,
        r - lo == comment_start(cs@.subrange(lo as int, hi as int)),
        r < hi ==> opens_at(cs@.subrange(lo as int, hi as int), r - lo),
{
    let ghost s = cs@.subrange(lo as int, hi as int);
    let mut r: usize = lo;
    while r < hi
        invariant_except_break
            lo <= r <= hi <= cs@.len(),
            s == cs@.subrange(lo as int, hi as int),
            forall|i: int| 0 <= i < r - lo ==> !opens_at(s, i),
        ensures
            lo <= r <= hi,
            r < hi ==> opens_at(s, r - lo),
            forall|i: int| 0 <= i < r - lo ==> !opens_at(s, i),
        decreases hi - r,
    {
        if hi - r > 1 && cs[r] == '/' && (cs[r + 1] == '/' || cs[r + 1] == '*') {
            break;
        }
        r = r + 1;
    }
    proof {
        lemma_comment_start_is(s, r - lo);
    }
    r
}

/// Where the delimiter that ends the block comment whose body starts at `lo` stands.
fn find_block_end(cs: &Vec<char>, lo: usize, hi: usize) -> (r: Option<usize>)
    requires
        lo <= hi <= cs@.len(),
    ensures
        match r {
            Some(e) => lo <= e && e + 2 <= hi && block_end(cs@.subrange(lo as int, hi as int), 1)
                == Some((e - lo) as nat),
            None => block_end(cs@.subrange(lo as int, hi as int), 1) is None,
        },
{
    let ghost whole = block_end(cs@.subrange(lo as int, hi as int), 1);
    let mut at: usize = lo;
    let mut depth: usize = 1;
    while hi - at >= 2
        invariant
            lo <= at <= hi <= cs@.len(),
            1 <= depth <= 1 + (at - lo),
            whole == block_end(cs@.subrange(lo as int, hi as int), 1),
            whole == after((at - lo) as nat, block_end(cs@.subrange(at as int, hi as int), depth as int)),
        decreases hi - at,
    {
        let ghost rest = cs@.subrange(at as int, hi as int);
        assert(rest.skip(2) =~= cs@.subrange(at + 2, hi as int));
        assert(rest.skip(1) =~= cs@.subrange(at + 1, hi as int));
        if cs[at] == '*' && cs[at + 1] == '/' {
            if depth == 1 {
                return Some(at);
            }
            depth = depth - 1;
            at = at + 2;
        } else if cs[at] == '/' && cs[at + 1] == '*' {
            depth = depth + 1;
            at = at + 2;
        } else {
            at = at + 1;
        }
    }
    None
}

/// Adds the lines of the block comment body `lo..hi` to the buffer.
fn add_block(cs: &Vec<char>, lo: usize, hi: usize, buffer: &mut CommentBuffer, Ghost(
    before,
): Ghost<Seq<CommentLine>>)
    requires
        lo <= hi <= cs@.len(),
        collected(*old(buffer), before),
    ensures
        collected(*final(buffer), before + block_lines(cs@.subrange(lo as int, hi as int))),
{
    let ranges: Vec<(usize, usize)> = text::line_ranges(cs, lo, hi);
    let ghost lines = block_lines(cs@.subrange(lo as int, hi as int));
    assert(before + lines.take(0) =~= before);
    let mut i: usize = 0;
    while i < ranges.len()
        invariant
            hi <= cs@.len(),
            i <= ranges@.len() == lines.len(),
            lines == block_lines(cs@.subrange(lo as int, hi as int)),
            text::cut(cs@, ranges@) == text::text_lines(cs@.subrange(lo as int, hi as int)),
            forall|j: int|
                0 <= j < ranges@.len() ==> lo <= (#[trigger] ranges@[j]).0 <= ranges@[j].1 <= hi,
            collected(*buffer, before + lines.take(i as int)),
        decreases ranges@.len() - i,
    {
        let (a, b) = ranges[i];
        let (ta, tb) = text::trim_range(cs, a, b);
        let start: usize = if tb - ta >= 2 && cs[ta] == '*' && cs[ta + 1] == ' ' {
            ta + 2
        } else {
            ta
        };
        let line: String = text::string_of(cs, start, tb);
        proof {
            assert(text::cut(cs@, ranges@)[i as int] == cs@.subrange(a as int, b as int));
            let t = text::trim(cs@.subrange(a as int, b as int));
            assert(t == cs@.subrange(ta as int, tb as int));
            assert(line@ =~= strip_margin(cs@.subrange(a as int, b as int)));
            assert((before + lines.take(i as int)).push(lines[i as int]) =~= before + lines.take(i + 1));
        }
        buffer.add(CommentMode::Normal, line);
        proof {
            let done = before + lines.take(i as int);
            assert(done.push(lines[i as int]).drop_last() =~= done);
        }
        i = i + 1;
    }
    assert(lines.take(lines.len() as int) =~= lines);
}

/// The buffer holds exactly the comments that `lines` form, and its pending
/// comment is the one that the next line may continue.
pub open spec fn collected(buffer: CommentBuffer, lines: Seq<CommentLine>) -> bool {
    &&& buffer.closed_out() == comments_of(lines)
    &&& buffer.lines@.len() > 0 <==> lines.len() > 0
    &&& lines.len() > 0 ==> buffer.mode == lines.last().mode
}

/// A text in which no comment opens has no comment lines.
pub proof fn lemma_no_comment(s: Seq<char>)
    requires
        comment_start(s) == s.len(),
    ensures
        comment_lines(s) == Some(Seq::<CommentLine>::empty()),
{
    reveal(comment_lines);
}

/// The lines of a text whose first comment is a line comment.
pub proof fn lemma_line_comment(s: Seq<char>)
    requires
        comment_start(s) + 1 < s.len(),
        s[comment_start(s) as int + 1] == '/',
    ensures
        ({
            let rest = s.skip(comment_start(s) as int + 2);
            let body = line_body(rest);
            let n = text::find(body, '\n') as int;
            let line = CommentLine { mode: line_mode(rest), line: body.take(n) };
            &&& body.len() == 0 ==> comment_lines(s) is None
            &&& body.len() > 0 && n >= body.len() ==> comment_lines(s) == Some(seq![line])
            &&& n < body.len() ==> comment_lines(s) == prepend(
                seq![line],
                comment_lines(body.skip(n + 1)),
            )
        }),
{
    reveal(comment_lines);
}

/// The lines of a text whose first comment is a block comment.
pub proof fn lemma_block_comment(s: Seq<char>)
    requires
        comment_start(s) + 1 < s.len(),
        s[comment_start(s) as int + 1] == '*',
    ensures
        ({
            let rest = s.skip(comment_start(s) as int + 2);
            match block_end(rest, 1) {
                None => comment_lines(s) is None,
                Some(e) => comment_lines(s) == prepend(
                    block_lines(rest.take(e as int)),
                    comment_lines(rest.skip(e as int + 2)),
                ),
            }
        }),
{
    reveal(comment_lines);
}

/// Lines put before others one go after the other.
proof fn lemma_prepend_twice(a: Seq<CommentLine>, b: Seq<CommentLine>, found: Option<Seq<CommentLine>>)
    ensures
        prepend(a, prepend(b, found)) == prepend(a + b, found),
{
    if let Some(lines) = found {
        assert(a + (b + lines) =~= (a + b) + lines);
    }
}

/// Adds the line comment whose opening ends at `lo` to the buffer and returns
/// the end of its line; nothing if the text ends there.
fn add_line(cs: &Vec<char>, lo: usize, hi: usize, buffer: &mut CommentBuffer, Ghost(
    before,
): Ghost<Seq<CommentLine>>) -> (r: Option<usize>)
    requires
        lo <= hi <= cs@.len(),
        collected(*old(buffer), before),
    ensures
        ({
            let rest = cs@.subrange(lo as int, hi as int);
            let body = line_body(rest);
            let n = text::find(body, '\n') as int;
            match r {
                None => body.len() == 0,
                Some(end) => {
                    &&& body.len() > 0
                    &&& lo <= hi - body.len()
                    &&& end == hi - body.len() + n
                    &&& end <= hi
                    &&& collected(
                        *final(buffer),
                        before.push(CommentLine { mode: line_mode(rest), line: body.take(n) }),
                    )
                },
            }
        }),
{
    let ghost rest = cs@.subrange(lo as int, hi as int);
    let mode: CommentMode = if lo < hi && cs[lo] == '/' {
        CommentMode::DocOuter
    } else if lo < hi && cs[lo] == '!' {
        CommentMode::DocInner
    } else {
        CommentMode::Normal
    };
    let body: usize = if mode == CommentMode::Normal {
        lo
    } else {
        lo + 1
    };
    assert(line_body(rest) =~= cs@.subrange(body as int, hi as int));
    if body == hi {
        return None;
    }
    let end: usize = text::find_in(cs, body, hi, '\n');
    let line: String = text::string_of(cs, body, end);
    proof {
        assert(line_body(rest).take(end - body) =~= line@);
        assert(before.push(CommentLine { mode, line: line@ }).drop_last() =~= before);
    }
    buffer.add(mode, line);
    Some(end)
}

/// The comments in the text between two tokens, where it can be read: no block
/// comment may run beyond it, and it may not end behind the opening of a line comment.
pub fn gap_comments(gap_text: &str) -> (r: Option<Vec<Comment>>)
    ensures
        match r {
            Some(comments) => gap(gap_text@) == Some(views(comments@)),
            None => gap(gap_text@) is None,
        },
{
    let cs: Vec<char> = text::chars_of(gap_text);
    let hi: usize = cs.len();
    let mut buffer: CommentBuffer = CommentBuffer::new();
    let mut at: usize = 0;
    let ghost mut done: Seq<CommentLine> = Seq::empty();
    assert(cs@.subrange(0, hi as int) =~= cs@);
    proof {
        if let Some(lines) = comment_lines(cs@) {
            assert(done + lines =~= lines);
        }
    }
    loop
        invariant
            at <= hi == cs@.len(),
            cs@ == gap_text@,
            collected(buffer, done),
            comment_lines(cs@) == prepend(done, comment_lines(cs@.subrange(at as int, hi as int))),
        decreases hi - at,
    {
        let ghost s = cs@.subrange(at as int, hi as int);
        let start: usize = find_start(&cs, at, hi);
        if start == hi {
            buffer.flush();
            proof {
                lemma_no_comment(s);
                assert(done + Seq::<CommentLine>::empty() =~= done);
            }
            return Some(buffer.out);
        }
        let lo: usize = start + 2;
        let ghost rest = cs@.subrange(lo as int, hi as int);
        assert(s.skip(start - at + 2) =~= rest);
        if cs[start + 1] == '/' {
            proof {
                lemma_line_comment(s);
            }
            match add_line(&cs, lo, hi, &mut buffer, Ghost(done)) {
                None => {
                    return None;
                },
                Some(end) => {
                    proof {
                        let body = line_body(rest);
                        let n = text::find(body, '\n') as int;
                        let line = CommentLine { mode: line_mode(rest), line: body.take(n) };
                        assert(done.push(line) =~= done + seq![line]);
                        let next = cs@.subrange(if end == hi { hi as int } else { end + 1 }, hi as int);
                        if end == hi {
                            assert(next =~= Seq::<char>::empty());
                            lemma_no_comment(next);
                            assert(seq![line] + Seq::<CommentLine>::empty() =~= seq![line]);
                        } else {
                            assert(body.skip(n + 1) =~= next);
                        }
                        lemma_prepend_twice(done, seq![line], comment_lines(next));
                        done = done.push(line);
                    }
                    at = if end == hi {
                        hi
                    } else {
                        end + 1
                    };
                },
            }
        } else {
            proof {
                lemma_block_comment(s);
            }
            match find_block_end(&cs, lo, hi) {
                None => {
                    return None;
                },
                Some(end) => {
                    add_block(&cs, lo, end, &mut buffer, Ghost(done));
                    proof {
                        let e = end - lo;
                        let lines = block_lines(cs@.subrange(lo as int, end as int));
                        assert(rest.take(e) =~= cs@.subrange(lo as int, end as int));
                        assert(rest.skip(e + 2) =~= cs@.subrange(end + 2, hi as int));
                        lemma_prepend_twice(
                            done,
                            lines,
                            comment_lines(cs@.subrange(end + 2, hi as int)),
                        );
                        done = done + lines;
                    }
                    at = end + 2;
                },
            }
        }
    }
}

} // verus!
