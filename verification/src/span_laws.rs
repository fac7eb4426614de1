//! What is written for the parts of a line: text, code, emphasis, links and images.
use vstd::prelude::*;
use crate::line::{self, World};
use crate::markdown::{EventView, TagView};
use crate::render::{self, Machine};
use crate::render_laws;
use crate::stack::{self, ElView};
use crate::text;
use crate::text_laws;

verus! {

/// A part of a line.
pub enum Span {
    Text(Seq<char>),
    Code(Seq<char>),
    /// A soft break, or a hard one.
    Break { hard: bool },
    Image { url: Seq<char>, title: Seq<char> },
    Emphasis(Seq<Span>),
    Strong(Seq<Span>),
    Strikethrough(Seq<Span>),
    Link { url: Seq<char>, title: Seq<char>, content: Seq<Span> },
}

/// The events of a part that starts, holds `content` and ends.
pub open spec fn enclosed(tag: TagView, content: Seq<EventView>) -> Seq<EventView> {
    seq![EventView::Start(tag)] + content + seq![EventView::End]
}

/// The events of a part of a line.
pub open spec fn span_events(span: Span) -> Seq<EventView>
    decreases span,
{
    match span {
        Span::Text(s) => seq![EventView::Text(s)],
        Span::Code(s) => seq![EventView::Code(s)],
        Span::Break { hard } => if hard {
            seq![EventView::HardBreak]
        } else {
            seq![EventView::SoftBreak]
        },
        Span::Image { url, title } => seq![EventView::Start(TagView::Image { url, title })],
        Span::Emphasis(content) => enclosed(TagView::Emphasis, spans_events(content)),
        Span::Strong(content) => enclosed(TagView::Strong, spans_events(content)),
        Span::Strikethrough(content) => enclosed(TagView::Strikethrough, spans_events(content)),
        Span::Link { url, title, content } => enclosed(
            TagView::Link { url, title },
            spans_events(content),
        ),
    }
}

/// The events of parts of a line, one after the other.
pub open spec fn spans_events(spans: Seq<Span>) -> Seq<EventView>
    decreases spans,
{
    if spans.len() == 0 {
        Seq::empty()
    } else {
        spans_events(spans.subrange(0, spans.len() - 1)) + span_events(spans[spans.len() - 1])
    }
}

/// How a part of a line is written: a link as an opening bracket, its content, a
/// closing bracket and the address in parentheses; an image the same way, with its
/// title in quotes if it has one; the others between their marks.
pub open spec fn span_text(span: Span) -> Seq<char>
    decreases span,
{
    match span {
        Span::Text(s) => s,
        Span::Code(s) => seq!['`'] + s + seq!['`'],
        Span::Break { hard: _ } => seq![' '],
        Span::Image { url, title } => seq!['!', '[', ']', '('] + url + (if title.len() == 0 {
            seq![')']
        } else {
            seq![' ', '"'] + title + seq!['"', ')']
        }),
        Span::Emphasis(content) => seq!['_'] + spans_text(content) + seq!['_'],
        Span::Strong(content) => seq!['*', '*'] + spans_text(content) + seq!['*', '*'],
        Span::Strikethrough(content) => seq!['~'] + spans_text(content) + seq!['~'],
        Span::Link { url, title: _, content } => seq!['['] + spans_text(content) + seq![']', '(']
            + url + seq![')'],
    }
}

/// How parts of a line are written, one after the other.
pub open spec fn spans_text(spans: Seq<Span>) -> Seq<char>
    decreases spans,
{
    if spans.len() == 0 {
        Seq::empty()
    } else {
        spans_text(spans.subrange(0, spans.len() - 1)) + span_text(spans[spans.len() - 1])
    }
}

/// The first part does not start with white space, which a line would not start with.
pub open spec fn starts_line(spans: Seq<Span>) -> bool {
    spans.len() > 0 ==> match spans[0] {
        Span::Text(s) => s.len() > 0 && text_laws::is_tight(s),
        Span::Break { hard: _ } => false,
        _ => true,
    }
}

/// The text fits on a line, and a break behind it would.
pub open spec fn has_room(w: World, l: int, s: Seq<char>) -> bool {
    text::byte_len(w.buffer + s) < line::width(w.lines[l])
}

/// `w` with `s` behind what the buffer holds.
pub open spec fn appended(w: World, s: Seq<char>) -> World {
    World { buffer: w.buffer + s, ..w }
}

/// A part of a line is open, and can be written to.
pub open spec fn is_in_line(m: Machine, l: int) -> bool {
    &&& m.stack.len() > 0
    &&& m.stack.last() matches ElView::Inline(el) && el.line == l
    &&& 0 <= l < m.world.lines.len()
    &&& stack::writable(m.world, l)
}

proof fn lemma_room_before(w: World, l: int, a: Seq<char>, b: Seq<char>)
    requires
        has_room(w, l, a + b),
    ensures
        has_room(w, l, a),
        has_room(appended(w, a), l, b),
        appended(appended(w, a), b) == appended(w, a + b),
{
    assert(w.buffer + (a + b) =~= (w.buffer + a) + b);
    text::lemma_byte_len_concat(w.buffer + a, b);
}

proof fn lemma_unbreakable_room(w: World, l: int, s: Seq<char>)
    requires
        has_room(w, l, s),
    ensures
        line::unbreakable(w, l, s) == appended(w, s),
{
    text::lemma_byte_len_concat(w.buffer, s);
}

proof fn lemma_breakable_room(w: World, l: int, s: Seq<char>)
    requires
        has_room(w, l, s),
        w.buffer.len() > 0 || text_laws::is_tight(s),
    ensures
        line::breakable(w, l, s) == appended(w, s),
{
    let none = Seq::<char>::empty();
    text::lemma_byte_len_concat(w.buffer, s);
    if w.buffer.len() == 0 {
        text_laws::law_trim(none, s, none);
        assert(none + s + none =~= s);
    }
    assert(line::emit_all(w, l, Seq::empty()) == w);
    if s.len() == 0 {
        assert(w.buffer + s =~= w.buffer);
    }
    assert(line::breakable(w, l, s) =~= appended(w, s));
}

/// The marks, character by character.
pub proof fn lemma_marks()
    ensures
        "_"@ == seq!['_'],
        "**"@ == seq!['*', '*'],
        "~"@ == seq!['~'],
        "["@ == seq!['['],
        "]("@ == seq![']', '('],
        ")"@ == seq![')'],
        "`"@ == seq!['`'],
        " "@ == seq![' '],
        "![]("@ == seq!['!', '[', ']', '('],
        " \""@ == seq![' ', '"'],
        "\")"@ == seq!['"', ')'],
{
    reveal_strlit("_");
    reveal_strlit("**");
    reveal_strlit("~");
    reveal_strlit("[");
    reveal_strlit("](");
    reveal_strlit(")");
    reveal_strlit("`");
    reveal_strlit(" ");
    reveal_strlit("![](");
    reveal_strlit(" \"");
    reveal_strlit("\")");
    assert("_"@ =~= seq!['_']);
    assert("**"@ =~= seq!['*', '*']);
    assert("~"@ =~= seq!['~']);
    assert("["@ =~= seq!['[']);
    assert("]("@ =~= seq![']', '(']);
    assert(")"@ =~= seq![')']);
    assert("`"@ =~= seq!['`']);
    assert(" "@ =~= seq![' ']);
    assert("![]("@ =~= seq!['!', '[', ']', '(']);
    assert(" \""@ =~= seq![' ', '"']);
    assert("\")"@ =~= seq!['"', ')']);
}

/// One event.
pub proof fn lemma_run_one(m: Machine, e: EventView)
    ensures
        render::run(m, seq![e]) == render::advance(m, e),
{
    assert(seq![e].drop_last() =~= Seq::<EventView>::empty());
    reveal_with_fuel(render::run, 2);
}

proof fn lemma_image_room(w: World, l: int, url: Seq<char>, title: Seq<char>)
    requires
        has_room(w, l, span_text(Span::Image { url, title })),
    ensures
        stack::image(w, l, url, title) == appended(w, span_text(Span::Image { url, title })),
{
    lemma_marks();
    let open = seq!['!', '[', ']', '('] + url;
    let s = span_text(Span::Image { url, title });
    if title.len() == 0 {
        assert(s =~= open + seq![')']);
        lemma_room_before(w, l, open, seq![')']);
        lemma_unbreakable_room(w, l, open);
        lemma_unbreakable_room(appended(w, open), l, seq![')']);
    } else {
        let a = open + seq![' ', '"'];
        let b = a + title;
        let end = seq!['"', ')'];
        assert(s =~= b + end);
        lemma_room_before(w, l, b, end);
        lemma_room_before(w, l, a, title);
        lemma_room_before(w, l, open, seq![' ', '"']);
        lemma_unbreakable_room(w, l, open);
        lemma_unbreakable_room(appended(w, open), l, seq![' ', '"']);
        lemma_breakable_room(appended(w, a), l, title);
        lemma_unbreakable_room(appended(w, b), l, end);
    }
}

/// A part of a line without parts in it.
proof fn lemma_leaf(m: Machine, l: int, span: Span)
    requires
        is_in_line(m, l),
        has_room(m.world, l, span_text(span)),
        m.world.buffer.len() > 0 || starts_line(seq![span]),
        span is Text || span is Code || span is Break || span is Image,
    ensures
        render::run(m, span_events(span)) == Some(
            (Machine { world: appended(m.world, span_text(span)), stack: m.stack }),
        ),
{
    let s = span_text(span);
    let e = span_events(span)[0];
    lemma_marks();
    assert(span_events(span) =~= seq![e]);
    lemma_run_one(m, e);
    reveal(render::advance);
    reveal(stack::step);
    assert(m.stack.drop_last().push(m.stack.last()) =~= m.stack);
    assert(seq![span][0] == span);
    match span {
        Span::Text(t) => {
            lemma_breakable_room(m.world, l, t);
        },
        Span::Code(t) => {
            lemma_unbreakable_room(m.world, l, s);
        },
        Span::Break { hard: _ } => {
            text::lemma_byte_len_concat(m.world.buffer, s);
        },
        Span::Image { url, title } => {
            lemma_image_room(m.world, l, url, title);
        },
        _ => {},
    }
}

/// A part of a line between two marks.
proof fn lemma_enclosed(
    m: Machine,
    l: int,
    tag: TagView,
    open: Seq<char>,
    content: Seq<Span>,
    close: Seq<char>,
)
    requires
        is_in_line(m, l),
        open.len() > 0,
        has_room(m.world, l, open + spans_text(content) + close),
        stack::inline_start(m.world, l, tag, false) == stack::open_inline(
            m.world,
            l,
            open,
            close,
            false,
        ),
        tag !is Image,
    ensures
        render::run(m, enclosed(tag, spans_events(content))) == Some(
            (Machine {
                world: appended(m.world, open + spans_text(content) + close),
                stack: m.stack,
            }),
        ),
    decreases content, 2int,
{
    let inner = spans_events(content);
    let events = enclosed(tag, inner);
    let s = spans_text(content);
    lemma_room_before(m.world, l, open + s, close);
    lemma_room_before(m.world, l, open, s);
    lemma_unbreakable_room(m.world, l, open);
    let el = ElView::Inline(
        stack::InlineView { end_bound: Some(close), line: l, line_root: false },
    );
    let a = Machine { world: appended(m.world, open), stack: m.stack.push(el) };
    let b = Machine { world: appended(m.world, open + s), stack: m.stack.push(el) };
    assert(render::advance(m, EventView::Start(tag)) == Some(a)) by {
        reveal(render::advance);
        reveal(stack::step);
        assert(m.stack.drop_last().push(m.stack.last()) =~= m.stack);
    }
    lemma_spans(a, l, content);
    lemma_unbreakable_room(b.world, l, close);
    let n = Machine { world: appended(m.world, open + s + close), stack: m.stack };
    assert(render::advance(b, EventView::End) == Some(n)) by {
        reveal(render::advance);
        reveal(stack::step);
        assert(b.stack.drop_last() =~= m.stack);
    }
    render::lemma_run_split(m, events, 1);
    assert(events.take(1) =~= seq![EventView::Start(tag)]);
    lemma_run_one(m, EventView::Start(tag));
    let rest = events.skip(1);
    assert(rest =~= inner + seq![EventView::End]);
    render::lemma_run_split(a, rest, inner.len() as int);
    assert(rest.take(inner.len() as int) =~= inner);
    assert(rest.skip(inner.len() as int) =~= seq![EventView::End]);
    lemma_run_one(b, EventView::End);
}

proof fn lemma_span(m: Machine, l: int, span: Span)
    requires
        is_in_line(m, l),
        has_room(m.world, l, span_text(span)),
        m.world.buffer.len() > 0 || starts_line(seq![span]),
    ensures
        render::run(m, span_events(span)) == Some(
            (Machine { world: appended(m.world, span_text(span)), stack: m.stack }),
        ),
    decreases span, 3int,
{
    lemma_marks();
    match span {
        Span::Emphasis(content) => {
            lemma_enclosed(m, l, TagView::Emphasis, seq!['_'], content, seq!['_']);
        },
        Span::Strong(content) => {
            lemma_enclosed(m, l, TagView::Strong, seq!['*', '*'], content, seq!['*', '*']);
        },
        Span::Strikethrough(content) => {
            lemma_enclosed(m, l, TagView::Strikethrough, seq!['~'], content, seq!['~']);
        },
        Span::Link { url, title, content } => {
            let close = seq![']', '('] + url + seq![')'];
            assert(span_text(span) =~= seq!['['] + spans_text(content) + close);
            lemma_enclosed(m, l, TagView::Link { url, title }, seq!['['], content, close);
        },
        _ => {
            lemma_leaf(m, l, span);
        },
    }
}

/// Parts of a line that fit on it are written as they are, one after the other.
pub proof fn lemma_spans(m: Machine, l: int, spans: Seq<Span>)
    requires
        is_in_line(m, l),
        has_room(m.world, l, spans_text(spans)),
        m.world.buffer.len() > 0 || starts_line(spans),
    ensures
        render::run(m, spans_events(spans)) == Some(
            (Machine { world: appended(m.world, spans_text(spans)), stack: m.stack }),
        ),
        starts_line(spans) && spans.len() > 0 ==> spans_text(spans).len() > 0,
    decreases spans, 1int,
{
    if spans.len() == 0 {
        assert(m.world.buffer + spans_text(spans) =~= m.world.buffer);
        assert(appended(m.world, spans_text(spans)) =~= m.world);
    } else {
        let k = spans.len() - 1;
        let some = spans.subrange(0, k);
        let last = spans[k];
        let s = spans_text(some);
        lemma_room_before(m.world, l, s, span_text(last));
        lemma_spans(m, l, some);
        let half = Machine { world: appended(m.world, s), stack: m.stack };
        if k > 0 {
            assert(some[0] == spans[0]);
        } else {
            assert(seq![last][0] == spans[0]);
            assert(half.world.buffer =~= m.world.buffer);
        }
        lemma_span(half, l, last);
        let events = spans_events(spans);
        let n = spans_events(some).len() as int;
        render::lemma_run_split(m, events, n);
        assert(events.take(n) =~= spans_events(some));
        assert(events.skip(n) =~= span_events(last));
    }
}

/// A paragraph.
pub open spec fn span_paragraph(spans: Seq<Span>) -> Seq<EventView> {
    enclosed(TagView::Paragraph, spans_events(spans))
}

/// A paragraph that fits on a line is written on it, behind the prefix: text as it
/// is, code, emphasis, links and images between their marks, the whole address of a
/// link and of an image, and all of it in order. White space at its end is dropped.
pub proof fn law_spans(prefix: Seq<char>, max_width: nat, spans: Seq<Span>)
    requires
        spans.len() > 0,
        starts_line(spans),
        text::byte_len(spans_text(spans)) < max_width,
    ensures
        render::rendered(prefix, max_width, span_paragraph(spans)) == Some(
            prefix + text::trim_end(spans_text(spans)),
        ),
{
    let m = render::start(prefix, max_width);
    let none = Seq::<Seq<char>>::empty();
    let s = spans_text(spans);
    let a = render_laws::lemma_paragraph_opens(m, prefix, max_width, none, true);
    let l = a.world.lines.len() - 1;
    assert(a.world.buffer + s =~= s);
    lemma_spans(a, l, spans);
    let b = Machine { world: appended(a.world, s), stack: a.stack };
    let v = line::emit(b.world, l, s);
    render_laws::lemma_emit_written(b.world, l, prefix, none, s);
    let line = prefix + text::trim_end(s);
    assert(none.push(line) =~= seq![line]);
    text_laws::law_join(line, none);
    let inner = spans_events(spans);
    let events = span_paragraph(spans);
    let rest = events.skip(1);
    render::lemma_run_split(m, events, 1);
    assert(events.take(1) =~= seq![EventView::Start(TagView::Paragraph)]);
    lemma_run_one(m, EventView::Start(TagView::Paragraph));
    assert(rest =~= inner + seq![EventView::End]);
    render::lemma_run_split(a, rest, inner.len() as int);
    assert(rest.take(inner.len() as int) =~= inner);
    assert(rest.skip(inner.len() as int) =~= seq![EventView::End]);
    lemma_run_one(b, EventView::End);
    assert(render::advance(b, EventView::End) matches Some(n) && n.world == v) by {
        reveal(render::advance);
        reveal(stack::step);
    }
}

} // verus!
