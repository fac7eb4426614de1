//! What one event writes.
use vstd::prelude::*;
use crate::block_laws;
use crate::comment;
use crate::line::{self, World};
use crate::markdown::{EventView, TagView};
use crate::page;
use crate::render::{self, Machine};
use crate::span_laws;
use crate::stack::{self, BlockView, ElView, InlineView};
use crate::text;

verus! {

/// The event writes `s` within a line, in one piece: code between back quotes, what
/// opens a part of the line, or what closes the part that is open.
pub open spec fn is_piece(top: InlineView, e: EventView, s: Seq<char>) -> bool {
    match e {
        EventView::Code(code) => s == seq!['`'] + code + seq!['`'],
        EventView::Start(TagView::Emphasis) => s == seq!['_'],
        EventView::Start(TagView::Strong) => s == seq!['*', '*'],
        EventView::Start(TagView::Strikethrough) => s == seq!['~'],
        EventView::Start(TagView::Link { url: _, title: _ }) => s == seq!['['],
        EventView::End => top.end_bound == Some(s) && !top.line_root,
        _ => false,
    }
}

/// How many bytes there is room for on a line.
pub open spec fn room(w: World, l: int) -> int {
    if w.lines[l].explicit_wrap {
        w.lines[l].max_width - 2
    } else {
        w.lines[l].max_width as int
    }
}

/// The line that waits has been written out: behind what comes before it, without
/// white space at its end.
pub open spec fn is_written_out(v: World, w: World, l: int) -> bool {
    let line = w.lines[l];
    &&& v.out == w.out + (if w.need_nl {
        seq!['\n']
    } else {
        Seq::empty()
    }) + (match line.first_prefix {
        Some(p) => p,
        None => line.prefix,
    }) + text::trim_end(w.buffer) + (if line.explicit_wrap {
        seq![' ', '\\']
    } else {
        Seq::empty()
    })
    &&& v.need_nl
    &&& v.lines == w.lines.update(l, line::LineView { first_prefix: None, ..line })
}

/// Nothing has been written out.
pub open spec fn is_waiting(v: World, w: World) -> bool {
    v.out == w.out && v.need_nl == w.need_nl && v.lines == w.lines
}

/// `w` with `s` behind what waits for the line if both fit on it, and else with `s`
/// on a line of its own, before which that one is written out.
pub open spec fn placed(w: World, l: int, s: Seq<char>) -> World {
    let line = w.lines[l];
    if w.buffer.len() == 0 || text::byte_len(w.buffer) + text::byte_len(s) <= room(w, l) {
        World { buffer: w.buffer + s, ..w }
    } else {
        World {
            lines: w.lines.update(l, line::LineView { first_prefix: None, ..line }),
            buffer: s,
            need_nl: true,
            out: w.out + (if w.need_nl {
                seq!['\n']
            } else {
                Seq::empty()
            }) + (match line.first_prefix {
                Some(p) => p,
                None => line.prefix,
            }) + text::trim_end(w.buffer) + (if line.explicit_wrap {
                seq![' ', '\\']
            } else {
                Seq::empty()
            }),
        }
    }
}

proof fn lemma_unbreakable_placed(w: World, l: int, s: Seq<char>)
    requires
        0 <= l < w.lines.len(),
    ensures
        line::unbreakable(w, l, s) == placed(w, l, s),
{
    let v = line::unbreakable(w, l, s);
    assert(Seq::<char>::empty() + s =~= s);
    assert(v =~= placed(w, l, s));
}

/// A piece of a line is written whole, behind what stands on the line if there is
/// room for it, and else on the next.
pub proof fn law_piece(m: Machine, l: int, e: EventView, s: Seq<char>)
    requires
        span_laws::is_in_line(m, l),
        is_piece(m.stack.last()->Inline_0, e, s),
    ensures
        render::advance(m, e) matches Some(n) && n.world == placed(m.world, l, s),
{
    span_laws::lemma_marks();
    lemma_unbreakable_placed(m.world, l, s);
    reveal(render::advance);
    reveal(stack::step);
}

/// What closes the part that the event opens: of a link a closing bracket and the
/// whole address in parentheses.
pub open spec fn closing(e: EventView) -> Option<Option<Seq<char>>> {
    match e {
        EventView::Start(TagView::Emphasis) => Some(Some(seq!['_'])),
        EventView::Start(TagView::Strong) => Some(Some(seq!['*', '*'])),
        EventView::Start(TagView::Strikethrough) => Some(Some(seq!['~'])),
        EventView::Start(TagView::Link { url, title: _ }) => Some(
            Some(seq![']', '('] + url + seq![')']),
        ),
        _ => None,
    }
}

/// A part of a line that starts is open until its end, and is closed by its marks;
/// the line goes on behind it. Everything else that can come in a line but its end
/// leaves the same parts open.
pub proof fn law_part_opens(m: Machine, l: int, e: EventView)
    requires
        span_laws::is_in_line(m, l),
        can_come(m.stack.last(), e),
        e !is End,
    ensures
        render::advance(m, e) matches Some(n) && n.stack == (match closing(e) {
            Some(end_bound) => m.stack.push(
                ElView::Inline(InlineView { end_bound, line: l, line_root: false }),
            ),
            None => m.stack,
        }),
{
    span_laws::lemma_marks();
    assert(m.stack.drop_last().push(m.stack.last()) =~= m.stack);
    if let EventView::Start(TagView::Link { url, title }) = e {
        assert(stack::link_end(url) =~= seq![']', '('] + url + seq![')']);
    }
    reveal(render::advance);
    reveal(stack::step);
}

/// An image is written in pieces: what opens it, with the whole address, and what
/// closes it. Between them comes the title, if there is one, in quotes, broken like
/// text.
pub proof fn law_image(m: Machine, l: int, url: Seq<char>, title: Seq<char>)
    requires
        span_laws::is_in_line(m, l),
    ensures
        ({
            let opened = placed(m.world, l, seq!['!', '[', ']', '('] + url);
            let quoted = Machine {
                world: placed(opened, l, seq![' ', '"']),
                stack: m.stack,
            };
            &&& render::advance(m, EventView::Start(TagView::Image { url, title })) matches Some(n)
                && n.stack == m.stack && if title.len() == 0 {
                n.world == placed(opened, l, seq![')'])
            } else {
                render::advance(quoted, EventView::Text(title)) matches Some(t) && n.world
                    == placed(t.world, l, seq!['"', ')'])
            }
        }),
{
    span_laws::lemma_marks();
    let w = m.world;
    let open = seq!['!', '[', ']', '('] + url;
    let v = line::unbreakable(w, l, open);
    lemma_unbreakable_placed(w, l, open);
    assert(m.stack.drop_last().push(m.stack.last()) =~= m.stack);
    let n = Machine { world: stack::image(w, l, url, title), stack: m.stack };
    assert(render::advance(m, EventView::Start(TagView::Image { url, title })) == Some(n)) by {
        reveal(render::advance);
        reveal(stack::step);
    }
    if title.len() == 0 {
        lemma_unbreakable_placed(v, l, seq![')']);
    } else {
        let q = line::unbreakable(v, l, seq![' ', '"']);
        lemma_unbreakable_placed(v, l, seq![' ', '"']);
        let u = line::breakable(q, l, title);
        let half = Machine { world: q, stack: m.stack };
        assert(q.lines.len() == w.lines.len() && q.lines[l].explicit_wrap
            == w.lines[l].explicit_wrap && q.lines[l].max_width == w.lines[l].max_width);
        assert(render::advance(half, EventView::Text(title)) matches Some(t) && t.world == u) by {
            reveal(render::advance);
            reveal(stack::step);
        }
        page::lemma_breakable_follows(q, l, title);
        page::lemma_follows_lines(u, q);
        lemma_unbreakable_placed(u, l, seq!['"', ')']);
    }
}

/// A break is a space where something can follow it on the line, and else the end of
/// the line.
pub proof fn law_break(m: Machine, l: int, e: EventView)
    requires
        span_laws::is_in_line(m, l),
        e is SoftBreak || e is HardBreak,
    ensures
        render::advance(m, e) matches Some(n) && n.stack == m.stack && ({
            if text::byte_len(m.world.buffer) + 1 < room(m.world, l) {
                n.world.buffer == m.world.buffer + seq![' '] && is_waiting(n.world, m.world)
            } else if m.world.buffer.len() == 0 {
                n.world == m.world
            } else {
                n.world.buffer.len() == 0 && is_written_out(n.world, m.world, l)
            }
        }),
{
    span_laws::lemma_marks();
    reveal(render::advance);
    reveal(stack::step);
    assert(m.stack.drop_last().push(m.stack.last()) =~= m.stack);
    let space = seq![' '];
    assert(text::byte_len(space) == 1) by {
        text::lemma_byte_len_one(' ');
    }
    let w = m.world;
    let v = line::whitespace(w, l, space);
    if text::byte_len(w.buffer) + 1 >= room(w, l) && w.buffer.len() > 0 {
        let line = w.lines[l];
        let nl = if w.need_nl {
            seq!['\n']
        } else {
            Seq::empty()
        };
        assert(v.out =~= w.out + nl + line::lead(line) + text::trim_end(w.buffer)
            + block_laws::mark_of(line));
    }
}

/// Text is broken over lines where it does not fit: the lines that are full are
/// written out, and the last one waits. White space around it is dropped where it
/// starts a line.
pub proof fn law_text(m: Machine, l: int, s: Seq<char>, lines: Seq<Seq<char>>)
    requires
        span_laws::is_in_line(m, l),
        m.world.out == comment::join(lines),
        m.world.need_nl == (lines.len() > 0),
    ensures
        render::advance(m, EventView::Text(s)) matches Some(n) && n.stack == m.stack && ({
            let t = if m.world.buffer.len() == 0 {
                text::trim(s)
            } else {
                s
            };
            let w = line::wrap(m.world.buffer, t, room(m.world, l));
            &&& n.world.buffer == w.rest
            &&& w.lines.len() == 0 ==> is_waiting(n.world, m.world)
            &&& n.world.out == comment::join(
                lines + block_laws::as_lines(m.world.lines[l], w.lines),
            )
        }),
{
    reveal(render::advance);
    reveal(stack::step);
    assert(m.stack.drop_last().push(m.stack.last()) =~= m.stack);
    let t = if m.world.buffer.len() == 0 {
        text::trim(s)
    } else {
        s
    };
    let w = line::wrap(m.world.buffer, t, room(m.world, l));
    block_laws::lemma_emit_all_lines(m.world, l, w.lines, lines);
    if w.lines.len() == 0 {
        assert(lines + block_laws::as_lines(m.world.lines[l], w.lines) =~= lines);
    }
}

/// The machine with another innermost part.
pub open spec fn with_top(m: Machine, top: ElView) -> Machine {
    Machine { stack: m.stack.drop_last().push(top), ..m }
}

/// Text, code, images, emphasis and links among blocks are written as they are
/// within a line. Emphasis ends the line there once it ends; of a link no part
/// opens, so that what closes it is not written.
pub proof fn law_among_blocks(m: Machine, el: BlockView, inline: InlineView, e: EventView)
    requires
        m.stack.len() > 0,
        m.stack.last() == ElView::Block(el),
        0 <= el.line < m.world.lines.len(),
        inline.line == el.line,
        match e {
            EventView::Text(_) => true,
            EventView::Code(_) => true,
            EventView::Start(tag) => tag is Image || tag is Emphasis || tag is Strong
                || tag is Strikethrough || tag is Link,
            _ => false,
        },
    ensures
        ({
            let among = render::advance(m, e);
            let within = render::advance(with_top(m, ElView::Inline(inline)), e);
            &&& among is Some <==> within is Some
            &&& among is Some ==> among.unwrap().world == within.unwrap().world
            &&& among is Some ==> {
                let parts = among.unwrap().stack;
                let at = m.stack.len() - 1;
                let pushes = e matches EventView::Start(tag) && (tag is Emphasis || tag is Strong
                    || tag is Strikethrough);
                &&& parts.len() == m.stack.len() + (if pushes {
                    1int
                } else {
                    0
                })
                &&& parts.take(at) == m.stack.drop_last()
                &&& parts[at] == ElView::Block(
                    (BlockView {
                        first: el.first && (e matches EventView::Start(tag) && tag is Link),
                        was_inline: true,
                        ..el
                    }),
                )
                &&& pushes ==> (parts[at + 1] matches ElView::Inline(part) && part.line == el.line
                    && part.line_root && Some(part.end_bound) == closing(e))
            }
        }),
{
    span_laws::lemma_marks();
    reveal(render::advance);
    reveal(stack::step);
    let w = with_top(m, ElView::Inline(inline));
    assert(w.stack.last() == ElView::Inline(inline));
    let among = render::advance(m, e);
    if let Some(n) = among {
        assert(n.stack.take(m.stack.len() - 1) =~= m.stack.drop_last());
    }
}

/// A soft break among blocks writes nothing and changes nothing.
pub proof fn law_break_among_blocks(m: Machine)
    requires
        m.stack.len() > 0,
        m.stack.last() is Block,
    ensures
        render::advance(m, EventView::SoftBreak) == Some(m),
{
    reveal(render::advance);
    reveal(stack::step);
    assert(m.stack.drop_last().push(m.stack.last()) =~= m.stack);
}

/// What waits for the line has been written out, and nothing waits any more.
pub open spec fn is_line_ended(v: World, w: World, l: int) -> bool {
    if w.buffer.len() == 0 {
        v == w
    } else {
        v.buffer.len() == 0 && is_written_out(v, w, l)
    }
}

proof fn lemma_flushed_ended(w: World, l: int)
    requires
        0 <= l < w.lines.len(),
    ensures
        is_line_ended(line::flushed(w, l), w, l),
{
    if w.buffer.len() > 0 {
        let line = w.lines[l];
        let nl = if w.need_nl {
            seq!['\n']
        } else {
            Seq::empty()
        };
        assert(line::flushed(w, l).out =~= w.out + nl + line::lead(line) + text::trim_end(w.buffer)
            + block_laws::mark_of(line));
    }
}

/// A part of a line that ends the line closes like one that does not, and then the
/// line is written out.
pub proof fn law_line_ends(m: Machine, l: int)
    requires
        span_laws::is_in_line(m, l),
        m.stack.last()->Inline_0.line_root,
    ensures
        ({
            let top = m.stack.last()->Inline_0;
            let open = with_top(m, ElView::Inline(InlineView { line_root: false, ..top }));
            let found = render::advance(m, EventView::End);
            let closed = render::advance(open, EventView::End);
            &&& found is Some && closed is Some
            &&& found.unwrap().stack == m.stack.drop_last()
            &&& closed.unwrap().stack == m.stack.drop_last()
            &&& top.end_bound is None ==> closed.unwrap().world == m.world
            &&& is_line_ended(found.unwrap().world, closed.unwrap().world, l)
        }),
{
    let top = m.stack.last()->Inline_0;
    let open = with_top(m, ElView::Inline(InlineView { line_root: false, ..top }));
    let v = match top.end_bound {
        Some(b) => line::unbreakable(m.world, l, b),
        None => m.world,
    };
    assert(open.stack.drop_last() =~= m.stack.drop_last());
    assert(v.lines.len() == m.world.lines.len());
    lemma_flushed_ended(v, l);
    assert(render::advance(open, EventView::End) == Some(
        Machine { world: v, stack: m.stack.drop_last() },
    )) by {
        reveal(render::advance);
        reveal(stack::step);
    }
    assert(render::advance(m, EventView::End) == Some(
        Machine { world: line::flushed(v, l), stack: m.stack.drop_last() },
    )) by {
        reveal(render::advance);
        reveal(stack::step);
    }
}

/// A part that holds blocks writes the line out when it ends, if it has begun one.
pub proof fn law_blocks_end(m: Machine, el: BlockView)
    requires
        m.stack.len() > 0,
        m.stack.last() == ElView::Block(el),
        el.end_bound is None,
        0 <= el.line < m.world.lines.len(),
    ensures
        render::advance(m, EventView::End) matches Some(n) && n.stack == m.stack.drop_last() && (
        if el.was_inline {
            is_line_ended(n.world, m.world, el.line)
        } else {
            n.world == m.world
        }),
{
    lemma_flushed_ended(m.world, el.line);
    reveal(render::advance);
    reveal(stack::step);
}

/// The event can come in the part.
pub open spec fn can_come(top: ElView, e: EventView) -> bool {
    match top {
        ElView::Inline(_) => match e {
            EventView::End => true,
            EventView::Text(_) => true,
            EventView::Code(_) => true,
            EventView::SoftBreak => true,
            EventView::HardBreak => true,
            EventView::Start(tag) => tag is Emphasis || tag is Strong || tag is Strikethrough
                || tag is Link || tag is Image,
            _ => false,
        },
        ElView::Block(_) => match e {
            EventView::End => true,
            EventView::Text(_) => true,
            EventView::Code(_) => true,
            EventView::SoftBreak => true,
            EventView::Start(tag) => tag is Emphasis || tag is Strong || tag is Strikethrough
                || tag is Link || tag is Image || tag is Paragraph || tag is Heading
                || tag is BlockQuote || tag is CodeBlock || tag is List,
            _ => false,
        },
        ElView::NumberList { count, line: _ } => count < u64::MAX && match e {
            EventView::End => true,
            EventView::Start(tag) => tag is Item,
            _ => false,
        },
        ElView::BulletList { line: _ } => match e {
            EventView::End => true,
            EventView::Start(tag) => tag is Item,
            _ => false,
        },
        ElView::CodeBlock { line: _ } => match e {
            EventView::End => true,
            EventView::Text(_) => true,
            _ => false,
        },
    }
}

/// An event that can come in the innermost part is handled, where the line has room
/// for a backslash and nothing waits for it, or is written out before a block comes.
/// One that cannot come there is not handled, nor is one that writes to a line
/// without that room, or a block where something waits that is not written out.
pub proof fn law_comes(m: Machine, e: EventView)
    requires
        m.stack.len() > 0,
    ensures
        !can_come(m.stack.last(), e) ==> render::advance(m, e) is None,
        ({
            let l = stack::line_of(m.stack.last());
            let line = m.world.lines[l];
            &&& can_come(m.stack.last(), e)
            &&& 0 <= l < m.world.lines.len()
            &&& line.explicit_wrap ==> line.max_width >= 2
            &&& m.stack.last() matches ElView::Block(el) ==> m.world.buffer.len() == 0
                || el.was_inline
        }) ==> render::advance(m, e) is Some,
        ({
            let l = stack::line_of(m.stack.last());
            let line = m.world.lines[l];
            &&& line.explicit_wrap && line.max_width < 2
            &&& m.stack.last() matches ElView::Inline(el) && !(e is End && el.end_bound is None)
        }) ==> render::advance(m, e) is None,
        ({
            &&& m.world.buffer.len() > 0
            &&& m.stack.last() matches ElView::Block(el) && !el.was_inline && !el.first
            &&& e matches EventView::Start(tag) && (tag is Paragraph || tag is Heading
                || tag is BlockQuote || tag is CodeBlock || tag is List)
        }) ==> render::advance(m, e) is None,
{
    reveal(render::advance);
    reveal(stack::step);
}

} // verus!
