//! What is written for the parts of a line that goes over several, whatever the width.
use vstd::prelude::*;
use crate::kept;
use crate::line::{self, World};
use crate::line_laws;
use crate::markdown::{EventView, TagView};
use crate::render::{self, Machine};
use crate::render_laws;
use crate::span_laws::{self, Span};
use crate::stack::{self, ElView, InlineView};
use crate::text;

verus! {

/// Nothing is written around the lines.
spec fn is_bare(w: World, l: int) -> bool {
    &&& 0 <= l < w.lines.len()
    &&& w.lines[l].first_prefix is None
    &&& w.lines[l].prefix.len() == 0
    &&& !w.lines[l].explicit_wrap
}

/// `v` has the solid characters of `w`, those of `s` behind them, and no others.
spec fn has_more(v: World, w: World, s: Seq<char>) -> bool {
    &&& v.lines == w.lines
    &&& kept::stream(v) == kept::stream(w) + line_laws::solid(s)
}

proof fn lemma_line_feed_solid()
    ensures
        line_laws::solid(seq!['\n']) == Seq::<char>::empty(),
        line_laws::solid(seq![' ']) == Seq::<char>::empty(),
        line_laws::solid(Seq::empty()) == Seq::<char>::empty(),
{
    assert(seq!['\n'].drop_last() =~= Seq::<char>::empty());
    assert(seq![' '].drop_last() =~= Seq::<char>::empty());
    assert(text::white_space('\n') && text::white_space(' '));
    reveal_with_fuel(line_laws::solid, 2);
}

proof fn lemma_emit_solid(w: World, l: int, c: Seq<char>)
    requires
        is_bare(w, l),
    ensures
        ({
            let v = line::emit(w, l, c);
            &&& v.lines == w.lines
            &&& v.buffer == Seq::<char>::empty()
            &&& line_laws::solid(v.out) == line_laws::solid(w.out) + line_laws::solid(c)
        }),
{
    let v = line::emit(w, l, c);
    let nl = if w.need_nl {
        seq!['\n']
    } else {
        Seq::empty()
    };
    lemma_line_feed_solid();
    assert(v.lines =~= w.lines);
    assert(line::written(w.lines[l], c) =~= text::trim_end(c));
    line_laws::lemma_solid_trim_end(c);
    line_laws::lemma_solid_concat(w.out + nl, text::trim_end(c));
    line_laws::lemma_solid_concat(w.out, nl);
    assert(line_laws::solid(v.out) =~= line_laws::solid(w.out) + line_laws::solid(c));
}

proof fn lemma_emit_all_solid(w: World, l: int, cs: Seq<Seq<char>>)
    requires
        is_bare(w, l),
    ensures
        ({
            let v = line::emit_all(w, l, cs);
            &&& v.lines == w.lines
            &&& line_laws::solid(v.out) == line_laws::solid(w.out) + line_laws::solid(
                line_laws::concat(cs),
            )
        }),
    decreases cs.len(),
{
    lemma_line_feed_solid();
    if cs.len() == 0 {
        assert(line_laws::solid(w.out) + Seq::<char>::empty() =~= line_laws::solid(w.out));
    } else {
        let some = cs.drop_last();
        lemma_emit_all_solid(w, l, some);
        lemma_emit_solid(line::emit_all(w, l, some), l, cs.last());
        lemma_concat_last(cs);
        line_laws::lemma_solid_concat(line_laws::concat(some), cs.last());
        assert(line_laws::solid(line::emit_all(w, l, cs).out) =~= line_laws::solid(w.out)
            + line_laws::solid(line_laws::concat(cs)));
    }
}

proof fn lemma_concat_last(cs: Seq<Seq<char>>)
    requires
        cs.len() > 0,
    ensures
        line_laws::concat(cs) == line_laws::concat(cs.drop_last()) + cs.last(),
    decreases cs.len(),
{
    if cs.len() == 1 {
        assert(cs.drop_first() =~= Seq::<Seq<char>>::empty());
        assert(cs.drop_last() =~= Seq::<Seq<char>>::empty());
        assert(line_laws::concat(cs) =~= line_laws::concat(cs.drop_last()) + cs.last());
    } else {
        lemma_concat_last(cs.drop_first());
        assert(cs.drop_first().drop_last() =~= cs.drop_last().drop_first());
        assert(line_laws::concat(cs) =~= line_laws::concat(cs.drop_last()) + cs.last());
    }
}

proof fn lemma_flushed_solid(w: World, l: int)
    requires
        is_bare(w, l),
    ensures
        has_more(line::flushed(w, l), w, Seq::empty()),
        line::flushed(w, l).buffer.len() == 0,
{
    lemma_line_feed_solid();
    lemma_emit_solid(w, l, w.buffer);
    assert(kept::stream(line::flushed(w, l)) =~= kept::stream(w));
    assert(kept::stream(w) + Seq::<char>::empty() =~= kept::stream(w));
}

proof fn lemma_unbreakable_solid(w: World, l: int, s: Seq<char>)
    requires
        is_bare(w, l),
    ensures
        has_more(line::unbreakable(w, l, s), w, s),
        s.is_suffix_of(line::unbreakable(w, l, s).buffer),
{
    lemma_flushed_solid(w, l);
    let v = line::unbreakable(w, l, s);
    let u = if v.lines == w.lines && v.out == w.out && v.buffer == w.buffer + s {
        w
    } else {
        line::flushed(w, l)
    };
    assert(v.buffer == u.buffer + s);
    line_laws::lemma_solid_concat(u.buffer, s);
    assert(kept::stream(v) =~= kept::stream(u) + line_laws::solid(s));
    assert(kept::stream(w) + Seq::<char>::empty() =~= kept::stream(w));
    assert(v.buffer.subrange(u.buffer.len() as int, v.buffer.len() as int) =~= s);
}

proof fn lemma_whitespace_solid(w: World, l: int)
    requires
        is_bare(w, l),
    ensures
        has_more(line::whitespace(w, l, seq![' ']), w, seq![' ']),
{
    lemma_flushed_solid(w, l);
    lemma_line_feed_solid();
    line_laws::lemma_solid_concat(w.buffer, seq![' ']);
    assert(line_laws::solid(w.buffer) + Seq::<char>::empty() =~= line_laws::solid(w.buffer));
    assert(kept::stream(w) + Seq::<char>::empty() =~= kept::stream(w));
}

proof fn lemma_breakable_solid(w: World, l: int, s: Seq<char>)
    requires
        is_bare(w, l),
    ensures
        has_more(line::breakable(w, l, s), w, s),
{
    let t = if w.buffer.len() == 0 {
        text::trim(s)
    } else {
        s
    };
    let width = line::width(w.lines[l]);
    let wrapped = line::wrap(w.buffer, t, width);
    line_laws::lemma_solid_trim(s);
    line_laws::law_wrap_keeps_text(w.buffer, t, width);
    line_laws::lemma_solid_concat(line_laws::concat(wrapped.lines), wrapped.rest);
    line_laws::lemma_solid_concat(w.buffer, t);
    lemma_emit_all_solid(w, l, wrapped.lines);
    let v = line::breakable(w, l, s);
    assert(kept::stream(v) =~= line_laws::solid(w.out) + (line_laws::solid(
        line_laws::concat(wrapped.lines),
    ) + line_laws::solid(wrapped.rest)));
    assert(kept::stream(v) =~= kept::stream(w) + line_laws::solid(s));
}

proof fn lemma_more_twice(u: World, v: World, w: World, s: Seq<char>, t: Seq<char>)
    requires
        has_more(v, w, s),
        has_more(u, v, t),
    ensures
        has_more(u, w, s + t),
{
    line_laws::lemma_solid_concat(s, t);
    assert(kept::stream(u) =~= kept::stream(w) + (line_laws::solid(s) + line_laws::solid(t)));
}

proof fn lemma_image_solid(w: World, l: int, url: Seq<char>, title: Seq<char>)
    requires
        is_bare(w, l),
    ensures
        has_more(stack::image(w, l, url, title), w, span_laws::span_text(Span::Image { url, title })),
{
    span_laws::lemma_marks();
    let open = seq!['!', '[', ']', '('] + url;
    let s = span_laws::span_text(Span::Image { url, title });
    let a = line::unbreakable(w, l, open);
    lemma_unbreakable_solid(w, l, open);
    if title.len() == 0 {
        lemma_unbreakable_solid(a, l, seq![')']);
        lemma_more_twice(line::unbreakable(a, l, seq![')']), a, w, open, seq![')']);
        assert(s =~= open + seq![')']);
    } else {
        let q = seq![' ', '"'];
        let end = seq!['"', ')'];
        let b = line::unbreakable(a, l, q);
        let c = line::breakable(b, l, title);
        let d = line::unbreakable(c, l, end);
        lemma_unbreakable_solid(a, l, q);
        lemma_more_twice(b, a, w, open, q);
        lemma_breakable_solid(b, l, title);
        lemma_more_twice(c, b, w, open + q, title);
        lemma_unbreakable_solid(c, l, end);
        lemma_more_twice(d, c, w, open + q + title, end);
        assert(s =~= open + q + title + end);
    }
}

/// What is written of a part of a line at any width: `n` comes of `m`.
spec fn is_written(m: Machine, found: Option<Machine>, s: Seq<char>) -> bool {
    found matches Some(n) && n.stack == m.stack && has_more(n.world, m.world, s)
}

proof fn lemma_leaf(m: Machine, l: int, span: Span)
    requires
        span_laws::is_in_line(m, l),
        is_bare(m.world, l),
        span is Text || span is Code || span is Break || span is Image,
    ensures
        is_written(m, render::run(m, span_laws::span_events(span)), span_laws::span_text(span)),
        span is Code ==> closing(span).is_suffix_of(
            render::run(m, span_laws::span_events(span)).unwrap().world.buffer,
        ),
{
    let e = span_laws::span_events(span)[0];
    span_laws::lemma_marks();
    assert(span_laws::span_events(span) =~= seq![e]);
    span_laws::lemma_run_one(m, e);
    reveal(render::advance);
    reveal(stack::step);
    assert(m.stack.drop_last().push(m.stack.last()) =~= m.stack);
    match span {
        Span::Text(t) => {
            lemma_breakable_solid(m.world, l, t);
        },
        Span::Code(t) => {
            lemma_unbreakable_solid(m.world, l, span_laws::span_text(span));
        },
        Span::Break { hard: _ } => {
            lemma_whitespace_solid(m.world, l);
        },
        Span::Image { url, title } => {
            lemma_image_solid(m.world, l, url, title);
        },
        _ => {},
    }
}

proof fn lemma_enclosed(
    m: Machine,
    l: int,
    tag: TagView,
    open: Seq<char>,
    content: Seq<Span>,
    close: Seq<char>,
)
    requires
        span_laws::is_in_line(m, l),
        is_bare(m.world, l),
        stack::inline_start(m.world, l, tag, false) == stack::open_inline(
            m.world,
            l,
            open,
            close,
            false,
        ),
        tag !is Image,
    ensures
        ({
            let found = render::run(
                m,
                span_laws::enclosed(tag, span_laws::spans_events(content)),
            );
            &&& is_written(m, found, open + span_laws::spans_text(content) + close)
            &&& close.is_suffix_of(found.unwrap().world.buffer)
        }),
    decreases content, 2int,
{
    let inner = span_laws::spans_events(content);
    let events = span_laws::enclosed(tag, inner);
    let s = span_laws::spans_text(content);
    let el = ElView::Inline(InlineView { end_bound: Some(close), line: l, line_root: false });
    let a = Machine { world: line::unbreakable(m.world, l, open), stack: m.stack.push(el) };
    lemma_unbreakable_solid(m.world, l, open);
    assert(render::advance(m, EventView::Start(tag)) == Some(a)) by {
        reveal(render::advance);
        reveal(stack::step);
        assert(m.stack.drop_last().push(m.stack.last()) =~= m.stack);
    }
    lemma_spans(a, l, content);
    let b = render::run(a, inner).unwrap();
    lemma_more_twice(b.world, a.world, m.world, open, s);
    let n = Machine { world: line::unbreakable(b.world, l, close), stack: m.stack };
    lemma_unbreakable_solid(b.world, l, close);
    lemma_more_twice(n.world, b.world, m.world, open + s, close);
    assert(render::advance(b, EventView::End) == Some(n)) by {
        reveal(render::advance);
        reveal(stack::step);
        assert(b.stack.drop_last() =~= m.stack);
    }
    render::lemma_run_split(m, events, 1);
    assert(events.take(1) =~= seq![EventView::Start(tag)]);
    span_laws::lemma_run_one(m, EventView::Start(tag));
    let rest = events.skip(1);
    assert(rest =~= inner + seq![EventView::End]);
    render::lemma_run_split(a, rest, inner.len() as int);
    assert(rest.take(inner.len() as int) =~= inner);
    assert(rest.skip(inner.len() as int) =~= seq![EventView::End]);
    span_laws::lemma_run_one(b, EventView::End);
}

/// What closes a part of a line and is not broken; of code the whole of it.
pub open spec fn closing(span: Span) -> Seq<char> {
    match span {
        Span::Code(s) => seq!['`'] + s + seq!['`'],
        Span::Emphasis(_) => seq!['_'],
        Span::Strong(_) => seq!['*', '*'],
        Span::Strikethrough(_) => seq!['~'],
        Span::Link { url, title: _, content: _ } => seq![']', '('] + url + seq![')'],
        _ => Seq::empty(),
    }
}

proof fn lemma_span(m: Machine, l: int, span: Span)
    requires
        span_laws::is_in_line(m, l),
        is_bare(m.world, l),
    ensures
        ({
            let found = render::run(m, span_laws::span_events(span));
            &&& is_written(m, found, span_laws::span_text(span))
            &&& closing(span).is_suffix_of(found.unwrap().world.buffer)
        }),
    decreases span, 3int,
{
    span_laws::lemma_marks();
    match span {
        Span::Emphasis(content) => {
            lemma_enclosed(m, l, TagView::Emphasis, seq!['_'], content, seq!['_']);
        },
        Span::Strong(content) => {
            lemma_enclosed(m, l, TagView::Strong, seq!['*', '*'], content, seq!['*', '*']);
        },
        Span::Strikethrough(content) => {
            lemma_enclosed(m, l, TagView::Strikethrough, seq!['~'], content, seq!['~']);
        },
        Span::Link { url, title, content } => {
            let close = seq![']', '('] + url + seq![')'];
            assert(span_laws::span_text(span) =~= seq!['['] + span_laws::spans_text(content)
                + close);
            lemma_enclosed(m, l, TagView::Link { url, title }, seq!['['], content, close);
        },
        _ => {
            lemma_leaf(m, l, span);
            if span !is Code {
                let b = render::run(m, span_laws::span_events(span)).unwrap().world.buffer;
                assert(b.subrange(b.len() as int, b.len() as int) =~= closing(span));
            }
        },
    }
}

proof fn lemma_spans(m: Machine, l: int, spans: Seq<Span>)
    requires
        span_laws::is_in_line(m, l),
        is_bare(m.world, l),
    ensures
        ({
            let found = render::run(m, span_laws::spans_events(spans));
            &&& is_written(m, found, span_laws::spans_text(spans))
            &&& spans.len() > 0 ==> closing(spans[spans.len() - 1]).is_suffix_of(
                found.unwrap().world.buffer,
            )
        }),
    decreases spans, 1int,
{
    if spans.len() == 0 {
        lemma_line_feed_solid();
        assert(kept::stream(m.world) + Seq::<char>::empty() =~= kept::stream(m.world));
    } else {
        let k = spans.len() - 1;
        let some = spans.subrange(0, k);
        let last = spans[k];
        lemma_spans(m, l, some);
        let half = render::run(m, span_laws::spans_events(some)).unwrap();
        lemma_span(half, l, last);
        let events = span_laws::spans_events(spans);
        let n = span_laws::spans_events(some).len() as int;
        render::lemma_run_split(m, events, n);
        assert(events.take(n) =~= span_laws::spans_events(some));
        assert(events.skip(n) =~= span_laws::span_events(last));
        let end = render::run(m, events).unwrap();
        lemma_more_twice(
            end.world,
            half.world,
            m.world,
            span_laws::spans_text(some),
            span_laws::span_text(last),
        );
    }
}

/// Whatever the width, a paragraph is written with all its solid characters and no
/// others: those of its text, the marks around its parts, and every character of
/// the addresses and titles that are written, in order. And what closes its last
/// part stands whole at the end of the last line: of a link a closing bracket and
/// the address in parentheses, of code all of it between its quotes.
pub proof fn law_spans_any_width(max_width: nat, spans: Seq<Span>)
    ensures
        render::rendered(Seq::empty(), max_width, span_laws::span_paragraph(spans)) matches Some(
            out,
        ) && {
            &&& line_laws::solid(out) == line_laws::solid(span_laws::spans_text(spans))
            &&& spans.len() > 0 ==> match spans[spans.len() - 1] {
                Span::Text(_) => true,
                Span::Break { hard: _ } => true,
                span => closing(span).is_suffix_of(out),
            }
        },
{
    let none = Seq::<char>::empty();
    let m = render::start(none, max_width);
    let a = render_laws::lemma_paragraph_opens(m, none, max_width, Seq::empty(), true);
    let l = a.world.lines.len() - 1;
    let s = span_laws::spans_text(spans);
    lemma_spans(a, l, spans);
    let inner = span_laws::spans_events(spans);
    let b = render::run(a, inner).unwrap();
    let v = line::flushed(b.world, l);
    lemma_flushed_solid(b.world, l);
    lemma_line_feed_solid();
    assert(a.world.out =~= none);
    assert(kept::stream(a.world) =~= none);
    assert(v.buffer =~= none);
    assert(line_laws::solid(v.out) =~= kept::stream(v));
    assert(kept::stream(b.world) + none =~= kept::stream(b.world));
    assert(none + line_laws::solid(s) =~= line_laws::solid(s));
    let events = span_laws::span_paragraph(spans);
    let rest = events.skip(1);
    render::lemma_run_split(m, events, 1);
    assert(events.take(1) =~= seq![EventView::Start(TagView::Paragraph)]);
    span_laws::lemma_run_one(m, EventView::Start(TagView::Paragraph));
    assert(rest =~= inner + seq![EventView::End]);
    render::lemma_run_split(a, rest, inner.len() as int);
    assert(rest.take(inner.len() as int) =~= inner);
    assert(rest.skip(inner.len() as int) =~= seq![EventView::End]);
    span_laws::lemma_run_one(b, EventView::End);
    assert(render::advance(b, EventView::End) matches Some(n) && n.world == v) by {
        reveal(render::advance);
        reveal(stack::step);
    }
    if spans.len() > 0 && closing(spans[spans.len() - 1]).len() > 0 {
        let close = closing(spans[spans.len() - 1]);
        let buffer = b.world.buffer;
        assert(!text::white_space(close[close.len() - 1]));
        assert(buffer.last() == close[close.len() - 1]);
        assert(text::trim_end(buffer) == buffer);
        assert(line::written(b.world.lines[l], buffer) =~= buffer);
        let from = v.out.len() - close.len();
        assert(v.out.subrange(from, v.out.len() as int) =~= close);
    } else if spans.len() > 0 {
        assert(v.out.subrange(v.out.len() as int, v.out.len() as int) =~= closing(
            spans[spans.len() - 1],
        ));
    }
}

} // verus!
