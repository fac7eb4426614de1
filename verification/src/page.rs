//! What writing never does: it loses no line state, takes nothing back, and puts
//! nothing before the prefix of a line.
use vstd::prelude::*;
use crate::comment;
use crate::line::{self, LineView, World};
use crate::markdown::{EventView, TagView};
use crate::stack::{self, BlockView, ElView, InlineView};
use crate::text;

verus! {

/// Lines that each start with `prefix`.
pub open spec fn all_behind(prefix: Seq<char>, lines: Seq<Seq<char>>) -> bool {
    forall|i: int| 0 <= i < lines.len() ==> prefix.is_prefix_of(#[trigger] lines[i])
}

/// `out` is made of lines that each start with `prefix`, with line feeds between
/// them.
pub open spec fn is_page(prefix: Seq<char>, out: Seq<char>) -> bool {
    exists|lines: Seq<Seq<char>>| out == #[trigger] comment::join(lines) && all_behind(prefix, lines)
}

/// What comes before the lines of a line state starts with `prefix`.
pub open spec fn leads_behind(prefix: Seq<char>, line: LineView) -> bool {
    &&& prefix.is_prefix_of(line.prefix)
    &&& line.first_prefix matches Some(p) ==> prefix.is_prefix_of(p)
}

/// All that has been written, and all that will be, comes behind `prefix`.
pub open spec fn is_behind(prefix: Seq<char>, w: World) -> bool {
    &&& !w.need_nl ==> w.out.len() == 0
    &&& w.need_nl ==> exists|lines: Seq<Seq<char>>|
        lines.len() > 0 && w.out == #[trigger] comment::join(lines) && all_behind(prefix, lines)
    &&& forall|i: int| 0 <= i < w.lines.len() ==> leads_behind(prefix, #[trigger] w.lines[i])
}

/// What has been written is a page.
pub proof fn lemma_behind_page(prefix: Seq<char>, w: World)
    requires
        is_behind(prefix, w),
    ensures
        is_page(prefix, w.out),
{
    if !w.need_nl {
        assert(w.out =~= comment::join(Seq::empty()));
    }
}

/// `v` can come of `w` by writing: the line states are still there, with at most
/// what comes before the next line taken from them, and the output is only longer.
#[verifier::opaque]
pub open spec fn follows(v: World, w: World) -> bool {
    &&& w.lines.len() <= v.lines.len()
    &&& forall|i: int|
        0 <= i < w.lines.len() ==> (#[trigger] v.lines[i]).prefix == w.lines[i].prefix
            && v.lines[i].explicit_wrap == w.lines[i].explicit_wrap && v.lines[i].max_width
            == w.lines[i].max_width && (v.lines[i].first_prefix is None
            || v.lines[i].first_prefix == w.lines[i].first_prefix)
    &&& w.out.is_prefix_of(v.out)
    &&& forall|prefix: Seq<char>| #[trigger] is_behind(prefix, w) ==> is_behind(prefix, v)
}

/// Writing, and writing again.
pub proof fn lemma_follows_twice(u: World, v: World, w: World)
    requires
        follows(u, v),
        follows(v, w),
    ensures
        follows(u, w),
{
    reveal(follows);
    assert forall|i: int| 0 <= i < w.lines.len() implies (#[trigger] u.lines[i]).prefix
        == w.lines[i].prefix && u.lines[i].explicit_wrap == w.lines[i].explicit_wrap
        && u.lines[i].max_width == w.lines[i].max_width && (u.lines[i].first_prefix is None
        || u.lines[i].first_prefix == w.lines[i].first_prefix) by {
        assert(v.lines[i].prefix == w.lines[i].prefix);
    }
    assert(w.out =~= u.out.subrange(0, w.out.len() as int));
}

/// The output is only longer, and comes behind the same prefix.
pub proof fn lemma_follows_out(v: World, w: World)
    requires
        follows(v, w),
    ensures
        w.out.is_prefix_of(v.out),
        forall|prefix: Seq<char>| #[trigger] is_behind(prefix, w) ==> is_behind(prefix, v),
{
    reveal(follows);
}

/// No line state is lost.
pub proof fn lemma_follows_lines(v: World, w: World)
    requires
        follows(v, w),
    ensures
        w.lines.len() <= v.lines.len(),
{
    reveal(follows);
}

/// How a line is written stays as it was.
pub proof fn lemma_follows_line(v: World, w: World, i: int)
    requires
        follows(v, w),
        0 <= i < w.lines.len(),
    ensures
        w.lines.len() <= v.lines.len(),
        v.lines[i].prefix == w.lines[i].prefix,
        v.lines[i].explicit_wrap == w.lines[i].explicit_wrap,
        v.lines[i].max_width == w.lines[i].max_width,
{
    reveal(follows);
}

/// Only the buffer differs.
pub proof fn lemma_buffer_follows(w: World, buffer: Seq<char>)
    ensures
        follows((World { buffer, ..w }), w),
{
    reveal(follows);
    assert(w.out =~= w.out.subrange(0, w.out.len() as int));
}

/// What starts with a text starts with what that starts with.
proof fn lemma_prefix_of_concat(prefix: Seq<char>, s: Seq<char>, t: Seq<char>)
    requires
        prefix.is_prefix_of(s),
    ensures
        prefix.is_prefix_of(s + t),
{
    assert(prefix =~= (s + t).subrange(0, prefix.len() as int));
}

/// One more line on a page.
proof fn lemma_page_more(prefix: Seq<char>, lines: Seq<Seq<char>>, more: Seq<char>)
    requires
        all_behind(prefix, lines),
        prefix.is_prefix_of(more),
    ensures
        all_behind(prefix, lines.push(more)),
        lines.len() > 0 ==> comment::join(lines.push(more)) == comment::join(lines).push('\n') + more,
        lines.len() == 0 ==> comment::join(lines.push(more)) == more,
{
    assert(lines.push(more).drop_last() =~= lines);
}

proof fn lemma_emit_follows(w: World, l: int, content: Seq<char>)
    requires
        0 <= l < w.lines.len(),
    ensures
        follows(line::emit(w, l, content), w),
{
    reveal(follows);
    let v = line::emit(w, l, content);
    assert(w.out =~= v.out.subrange(0, w.out.len() as int));
    assert forall|prefix: Seq<char>| #[trigger] is_behind(prefix, w) implies is_behind(prefix, v) by {
        let more = line::written(w.lines[l], content);
        assert(leads_behind(prefix, w.lines[l]));
        let lead = line::lead(w.lines[l]);
        lemma_prefix_of_concat(prefix, lead, text::trim_end(content));
        lemma_prefix_of_concat(
            prefix,
            lead + text::trim_end(content),
            if w.lines[l].explicit_wrap {
                seq![' ', '\\']
            } else {
                Seq::empty()
            },
        );
        let lines = if w.need_nl {
            choose|lines: Seq<Seq<char>>|
                lines.len() > 0 && w.out == #[trigger] comment::join(lines) && all_behind(
                    prefix,
                    lines,
                )
        } else {
            Seq::empty()
        };
        lemma_page_more(prefix, lines, more);
        assert(v.out =~= comment::join(lines.push(more)));
        assert forall|i: int| 0 <= i < v.lines.len() implies leads_behind(
            prefix,
            #[trigger] v.lines[i],
        ) by {
            assert(leads_behind(prefix, w.lines[i]));
        }
    }
}

proof fn lemma_flushed_follows(w: World, l: int)
    requires
        0 <= l < w.lines.len(),
    ensures
        follows(line::flushed(w, l), w),
{
    lemma_buffer_follows(w, w.buffer);
    lemma_emit_follows(w, l, w.buffer);
}

proof fn lemma_unbreakable_follows(w: World, l: int, s: Seq<char>)
    requires
        0 <= l < w.lines.len(),
    ensures
        follows(line::unbreakable(w, l, s), w),
{
    let v = line::flushed(w, l);
    lemma_flushed_follows(w, l);
    lemma_buffer_follows(v, v.buffer + s);
    lemma_buffer_follows(w, w.buffer + s);
    lemma_follows_twice(World { buffer: v.buffer + s, ..v }, v, w);
}

proof fn lemma_whitespace_follows(w: World, l: int, s: Seq<char>)
    requires
        0 <= l < w.lines.len(),
    ensures
        follows(line::whitespace(w, l, s), w),
{
    lemma_flushed_follows(w, l);
    lemma_buffer_follows(w, w.buffer + s);
}

proof fn lemma_emit_all_follows(w: World, l: int, contents: Seq<Seq<char>>)
    requires
        0 <= l < w.lines.len(),
    ensures
        follows(line::emit_all(w, l, contents), w),
    decreases contents.len(),
{
    if contents.len() == 0 {
        lemma_buffer_follows(w, w.buffer);
    } else {
        let v = line::emit_all(w, l, contents.drop_last());
        lemma_emit_all_follows(w, l, contents.drop_last());
        lemma_follows_lines(v, w);
        lemma_emit_follows(v, l, contents.last());
        lemma_follows_twice(line::emit(v, l, contents.last()), v, w);
    }
}

/// Writing text that may be broken.
pub proof fn lemma_breakable_follows(w: World, l: int, s: Seq<char>)
    requires
        0 <= l < w.lines.len(),
    ensures
        follows(line::breakable(w, l, s), w),
{
    let t = if w.buffer.len() == 0 {
        text::trim(s)
    } else {
        s
    };
    let wrapped = line::wrap(w.buffer, t, line::width(w.lines[l]));
    let v = line::emit_all(w, l, wrapped.lines);
    lemma_emit_all_follows(w, l, wrapped.lines);
    lemma_buffer_follows(v, wrapped.rest);
    lemma_follows_twice(line::breakable(w, l, s), v, w);
}

/// A further line state, made of the one at `l`.
proof fn lemma_with_line_follows(
    w: World,
    l: int,
    first_prefix: Option<Seq<char>>,
    prefix: Seq<char>,
    explicit_wrap: bool,
)
    requires
        0 <= l < w.lines.len(),
    ensures
        follows(
            line::with_line(
                w,
                l,
                line::indented(w.lines[l], first_prefix, prefix, explicit_wrap),
            ),
            w,
        ),
        follows(line::with_line(w, l, w.lines[l]), w),
{
    reveal(follows);
    assert(w.out =~= w.out.subrange(0, w.out.len() as int));
    let line = w.lines[l];
    assert forall|p: Seq<char>| #[trigger] is_behind(p, w) implies is_behind(
        p,
        line::with_line(w, l, line::indented(line, first_prefix, prefix, explicit_wrap)),
    ) && is_behind(p, line::with_line(w, l, line)) by {
        assert(leads_behind(p, line));
        lemma_prefix_of_concat(p, line.prefix, prefix);
        if let Some(f) = first_prefix {
            lemma_prefix_of_concat(p, line.prefix, f);
            if let Some(g) = line.first_prefix {
                lemma_prefix_of_concat(p, g, f);
            }
        }
        assert forall|i: int| 0 <= i < w.lines.len() implies leads_behind(
            p,
            #[trigger] w.lines.update(l, LineView { first_prefix: None, ..line })[i],
        ) by {
            assert(leads_behind(p, w.lines[i]));
        }
    }
}

proof fn lemma_same_follows(w: World)
    ensures
        follows(w, w),
{
    lemma_buffer_follows(w, w.buffer);
}

/// Writing what stays on one line, and the line out.
proof fn lemma_line_follows(w: World, l: int, s: Seq<char>)
    requires
        0 <= l < w.lines.len(),
    ensures
        follows(line::flushed(line::unbreakable(w, l, s), l), w),
{
    let v = line::unbreakable(w, l, s);
    lemma_unbreakable_follows(w, l, s);
    lemma_follows_lines(v, w);
    lemma_flushed_follows(v, l);
    lemma_follows_twice(line::flushed(v, l), v, w);
}

proof fn lemma_code_lines_follow(w: World, l: int, lines: Seq<Seq<char>>)
    requires
        0 <= l < w.lines.len(),
    ensures
        follows(stack::code_lines(w, l, lines), w),
    decreases lines.len(),
{
    if lines.len() == 0 {
        lemma_same_follows(w);
    } else {
        let v = stack::code_lines(w, l, lines.drop_last());
        lemma_code_lines_follow(w, l, lines.drop_last());
        lemma_follows_lines(v, w);
        lemma_line_follows(v, l, lines.last());
        lemma_follows_twice(stack::code_lines(w, l, lines), v, w);
    }
}

proof fn lemma_image_follows(w: World, l: int, url: Seq<char>, title: Seq<char>)
    requires
        0 <= l < w.lines.len(),
    ensures
        follows(stack::image(w, l, url, title), w),
{
    let a = line::unbreakable(w, l, "![]("@ + url);
    lemma_unbreakable_follows(w, l, "![]("@ + url);
    lemma_follows_lines(a, w);
    if title.len() == 0 {
        lemma_unbreakable_follows(a, l, ")"@);
        lemma_follows_twice(line::unbreakable(a, l, ")"@), a, w);
    } else {
        let b = line::unbreakable(a, l, " \""@);
        lemma_unbreakable_follows(a, l, " \""@);
        lemma_follows_twice(b, a, w);
        lemma_follows_lines(b, w);
        let c = line::breakable(b, l, title);
        lemma_breakable_follows(b, l, title);
        lemma_follows_twice(c, b, w);
        lemma_follows_lines(c, w);
        let d = line::unbreakable(c, l, "\")"@);
        lemma_unbreakable_follows(c, l, "\")"@);
        lemma_follows_twice(d, c, w);
    }
}

proof fn lemma_inline_tag_follows(w: World, l: int, tag: TagView, root: bool)
    requires
        0 <= l < w.lines.len(),
    ensures
        stack::inline_start(w, l, tag, root) matches Some((v, res)) ==> follows(v, w)
            && stack::res_valid(res, v),
        stack::inline_tag(w, l, tag) matches Some((v, res)) ==> follows(v, w) && stack::res_valid(
            res,
            v,
        ),
{
    match tag {
        TagView::Image { url, title } => {
            lemma_image_follows(w, l, url, title);
        },
        _ => {
            let start = match tag {
                TagView::Emphasis => "_"@,
                TagView::Strong => "**"@,
                TagView::Strikethrough => "~"@,
                _ => "["@,
            };
            lemma_unbreakable_follows(w, l, start);
            lemma_follows_lines(line::unbreakable(w, l, start), w);
        },
    }
}

proof fn lemma_inline_follows(el: InlineView, w: World, e: EventView)
    requires
        0 <= el.line < w.lines.len(),
    ensures
        stack::inline_step(el, w, e) matches Some((v, res)) ==> follows(v, w) && stack::res_valid(
            res,
            v,
        ),
{
    let l = el.line;
    match e {
        EventView::End => {
            lemma_same_follows(w);
            lemma_flushed_follows(w, l);
            if let Some(b) = el.end_bound {
                lemma_unbreakable_follows(w, l, b);
                lemma_line_follows(w, l, b);
            }
        },
        EventView::Start(tag) => {
            lemma_inline_tag_follows(w, l, tag, false);
        },
        EventView::Text(s) => {
            lemma_breakable_follows(w, l, s);
        },
        EventView::Code(s) => {
            lemma_unbreakable_follows(w, l, stack::code_span(s));
        },
        _ => {
            lemma_whitespace_follows(w, l, " "@);
        },
    }
}

proof fn lemma_block_open_follows(w: World, l: int, tag: TagView)
    requires
        0 <= l < w.lines.len(),
    ensures
        stack::block_open(w, l, tag) matches Some((v, res)) ==> follows(v, w) && stack::res_valid(
            res,
            v,
        ),
{
    match tag {
        TagView::Heading(level) => {
            lemma_with_line_follows(w, l, Some(text::repeat('#', level)), "  "@, true);
        },
        TagView::BlockQuote => {
            lemma_with_line_follows(w, l, None, ">"@, false);
        },
        TagView::CodeBlock(lang) => {
            let v = line::unbreakable(w, l, stack::fence(lang));
            lemma_unbreakable_follows(w, l, stack::fence(lang));
            lemma_follows_lines(v, w);
            lemma_with_line_follows(v, l, None, Seq::empty(), false);
            lemma_follows_twice(line::with_line(v, l, v.lines[l]), v, w);
        },
        _ => {
            lemma_with_line_follows(w, l, None, Seq::empty(), false);
        },
    }
}

proof fn lemma_block_ev_follows(el: BlockView, w: World)
    requires
        0 <= el.line < w.lines.len(),
    ensures
        stack::block_ev(el, w) matches Some((next, v)) ==> next.line == el.line && follows(v, w),
{
    let v = if el.was_inline {
        line::flushed(w, el.line)
    } else {
        w
    };
    lemma_same_follows(w);
    lemma_flushed_follows(w, el.line);
    lemma_follows_lines(v, w);
    lemma_emit_follows(v, el.line, Seq::empty());
    lemma_follows_twice(line::emit(v, el.line, Seq::empty()), v, w);
}

proof fn lemma_block_tag_follows(el: BlockView, w: World, tag: TagView)
    requires
        0 <= el.line < w.lines.len(),
    ensures
        stack::block_tag(el, w, tag) matches Some((next, v, res)) ==> next.line == el.line
            && follows(v, w) && stack::res_valid(res, v),
{
    let l = el.line;
    lemma_inline_tag_follows(w, l, tag, true);
    lemma_unbreakable_follows(w, l, "["@);
    lemma_block_ev_follows(el, w);
    if let Some((next, v)) = stack::block_ev(el, w) {
        lemma_follows_lines(v, w);
        lemma_block_open_follows(v, l, tag);
        if let Some((u, res)) = stack::block_open(v, l, tag) {
            lemma_follows_twice(u, v, w);
        }
    }
}

proof fn lemma_block_follows(el: BlockView, w: World, e: EventView)
    requires
        0 <= el.line < w.lines.len(),
    ensures
        stack::block_step(el, w, e) matches Some((next, v, res)) ==> next.line == el.line
            && follows(v, w) && stack::res_valid(res, v),
{
    let l = el.line;
    lemma_same_follows(w);
    match e {
        EventView::Start(tag) => {
            lemma_block_tag_follows(el, w, tag);
        },
        EventView::End => {
            let v = if el.was_inline {
                line::flushed(w, l)
            } else {
                w
            };
            lemma_flushed_follows(w, l);
            lemma_follows_lines(v, w);
            if let Some(b) = el.end_bound {
                lemma_line_follows(v, l, b);
                lemma_follows_twice(line::flushed(line::unbreakable(v, l, b), l), v, w);
            }
        },
        EventView::Text(s) => {
            lemma_breakable_follows(w, l, s);
        },
        EventView::Code(s) => {
            lemma_unbreakable_follows(w, l, stack::code_span(s));
        },
        _ => {},
    }
}

proof fn lemma_list_follows(l: int, mark: Seq<char>, w: World, e: EventView)
    requires
        0 <= l < w.lines.len(),
    ensures
        stack::list_step(l, mark, w, e) matches Some((v, res)) ==> follows(v, w)
            && stack::res_valid(res, v),
{
    lemma_same_follows(w);
    lemma_with_line_follows(w, l, Some(mark), "   "@, false);
}

proof fn lemma_code_follows(l: int, w: World, e: EventView)
    requires
        0 <= l < w.lines.len(),
    ensures
        stack::code_step(l, w, e) matches Some((v, res)) ==> follows(v, w) && stack::res_valid(
            res,
            v,
        ),
{
    lemma_line_follows(w, l, "```"@);
    if let EventView::Text(s) = e {
        lemma_code_lines_follow(w, l, text::text_lines(s));
    }
}

/// What a part does with an event is writing. It keeps its line state, and a part
/// that opens has one.
pub proof fn lemma_step_follows(el: ElView, w: World, e: EventView)
    requires
        stack::is_valid(el, w),
    ensures
        stack::step(el, w, e) matches Some((top, v, res)) ==> {
            &&& stack::line_of(top) == stack::line_of(el)
            &&& follows(v, w)
            &&& stack::res_valid(res, v)
        },
{
    reveal(stack::step);
    match el {
        ElView::Inline(inline) => {
            lemma_inline_follows(inline, w, e);
        },
        ElView::Block(block) => {
            lemma_block_follows(block, w, e);
        },
        ElView::NumberList { count, line } => {
            lemma_list_follows(line, stack::number_mark(count), w, e);
        },
        ElView::BulletList { line } => {
            lemma_list_follows(line, "* "@, w, e);
        },
        ElView::CodeBlock { line } => {
            lemma_code_follows(line, w, e);
        },
    }
}

} // verus!
