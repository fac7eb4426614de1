//! Paragraphs that go over several lines of their source.
use vstd::prelude::*;
use crate::comment;
use crate::line::{self, LineView, Wrapped};
use crate::line_laws;
use crate::markdown::{EventView, TagView};
use crate::prefix_laws;
use crate::render::{self, Machine};
use crate::render_laws;
use crate::stack::{self, BlockView, ElView, InlineView};
use crate::text;

verus! {

/// Texts with soft breaks between them.
pub open spec fn soft_texts(texts: Seq<Seq<char>>) -> Seq<EventView>
    decreases texts.len(),
{
    if texts.len() == 0 {
        Seq::empty()
    } else if texts.len() == 1 {
        seq![EventView::Text(texts[0])]
    } else {
        soft_texts(texts.drop_last()).push(EventView::SoftBreak).push(
            EventView::Text(texts.last()),
        )
    }
}

/// A paragraph of texts with soft breaks between them.
pub open spec fn soft_paragraph(texts: Seq<Seq<char>>) -> Seq<EventView> {
    seq![EventView::Start(TagView::Paragraph)] + soft_texts(texts) + seq![EventView::End]
}

/// A document of such paragraphs.
pub open spec fn soft_paragraphs(paragraphs: Seq<Seq<Seq<char>>>) -> Seq<EventView>
    decreases paragraphs.len(),
{
    if paragraphs.len() == 0 {
        Seq::empty()
    } else {
        soft_paragraphs(paragraphs.drop_last()) + soft_paragraph(paragraphs.last())
    }
}

/// A soft break behind text that is broken over lines: a space, or the end of the
/// line where it is full.
pub open spec fn soft_break(w: Wrapped, width: int) -> Wrapped {
    if text::byte_len(w.rest) + 1 < width {
        Wrapped { rest: w.rest.push(' '), ..w }
    } else if w.rest.len() == 0 {
        w
    } else {
        Wrapped { lines: w.lines.push(w.rest), rest: Seq::empty() }
    }
}

/// Further text behind text that is broken over lines. White space around it is
/// dropped where it starts a line.
pub open spec fn more_text(w: Wrapped, s: Seq<char>, width: int) -> Wrapped {
    let t = if w.rest.len() == 0 {
        text::trim(s)
    } else {
        s
    };
    let more = line::wrap(w.rest, t, width);
    Wrapped { lines: w.lines + more.lines, rest: more.rest }
}

/// Texts with soft breaks between them, broken over lines.
pub open spec fn soft_wrap(texts: Seq<Seq<char>>, width: int) -> Wrapped
    decreases texts.len(),
{
    if texts.len() == 0 {
        Wrapped { lines: Seq::empty(), rest: Seq::empty() }
    } else {
        let before = soft_wrap(texts.drop_last(), width);
        more_text(
            if texts.len() == 1 {
                before
            } else {
                soft_break(before, width)
            },
            texts.last(),
            width,
        )
    }
}

/// The lines of a paragraph, with the last one.
pub open spec fn all_lines(w: Wrapped) -> Seq<Seq<char>> {
    if w.rest.len() == 0 {
        w.lines
    } else {
        w.lines.push(w.rest)
    }
}

/// The lines of a paragraph as they are written, without their prefix.
pub open spec fn soft_lines(texts: Seq<Seq<char>>, width: int) -> Seq<Seq<char>> {
    all_lines(soft_wrap(texts, width)).map_values(|c: Seq<char>| text::trim_end(c))
}

/// The lines of a document, with an empty one between two paragraphs.
pub open spec fn soft_document(paragraphs: Seq<Seq<Seq<char>>>, width: int) -> Seq<Seq<char>>
    decreases paragraphs.len(),
{
    if paragraphs.len() == 0 {
        Seq::empty()
    } else {
        let lines = soft_lines(paragraphs.last(), width);
        if paragraphs.len() == 1 {
            lines
        } else {
            soft_document(paragraphs.drop_last(), width).push(Seq::empty()) + lines
        }
    }
}

/// The part that holds the whole document, once something has come.
spec fn root() -> ElView {
    ElView::Block(BlockView { line: 0, first: false, was_inline: false, end_bound: None })
}

/// A paragraph is open, `lines` were written before it, and `w` of it.
spec fn is_within(
    m: Machine,
    prefix: Seq<char>,
    max_width: nat,
    lines: Seq<Seq<char>>,
    first: LineView,
    w: Wrapped,
) -> bool {
    let l = m.world.lines.len() - 1;
    &&& l > 0
    &&& m.stack == seq![
        root(),
        ElView::Inline(InlineView { end_bound: None, line: l, line_root: true }),
    ]
    &&& m.world.lines[0] == first
    &&& m.world.lines[l].max_width == max_width
    &&& m.world.buffer == w.rest
    &&& render_laws::has_written(
        m.world,
        l,
        prefix,
        lines + render_laws::behind(prefix, w.lines),
    )
}

/// Text comes in a paragraph.
proof fn lemma_text_within(
    m: Machine,
    prefix: Seq<char>,
    max_width: nat,
    lines: Seq<Seq<char>>,
    first: LineView,
    w: Wrapped,
    s: Seq<char>,
) -> (n: Machine)
    requires
        is_within(m, prefix, max_width, lines, first, w),
    ensures
        render::advance(m, EventView::Text(s)) == Some(n),
        is_within(n, prefix, max_width, lines, first, more_text(w, s, max_width as int)),
{
    reveal(render::advance);
    reveal(stack::step);
    let l = m.world.lines.len() - 1;
    let t = if w.rest.len() == 0 {
        text::trim(s)
    } else {
        s
    };
    let more = line::wrap(w.rest, t, max_width as int);
    let done = lines + render_laws::behind(prefix, w.lines);
    render_laws::lemma_emit_all_written(m.world, l, prefix, done, more.lines);
    let n = render::advance(m, EventView::Text(s)).unwrap();
    assert(m.stack.last() == m.stack[1]);
    assert(n.world == line::breakable(m.world, l, s));
    assert(n.stack =~= m.stack);
    assert(done + render_laws::behind(prefix, more.lines) =~= lines + render_laws::behind(
        prefix,
        w.lines + more.lines,
    ));
    n
}

/// A soft break comes in a paragraph.
proof fn lemma_break_within(
    m: Machine,
    prefix: Seq<char>,
    max_width: nat,
    lines: Seq<Seq<char>>,
    first: LineView,
    w: Wrapped,
) -> (n: Machine)
    requires
        is_within(m, prefix, max_width, lines, first, w),
    ensures
        render::advance(m, EventView::SoftBreak) == Some(n),
        is_within(n, prefix, max_width, lines, first, soft_break(w, max_width as int)),
{
    reveal(render::advance);
    reveal(stack::step);
    reveal_strlit(" ");
    let l = m.world.lines.len() - 1;
    assert(" "@ =~= seq![' ']);
    assert(text::byte_len(seq![' ']) == 1) by {
        text::lemma_byte_len_one(' ');
        reveal_with_fuel(vstd::utf8::encode_utf8, 2);
        assert(seq![' '].drop_first() =~= Seq::<char>::empty());
    }
    let done = lines + render_laws::behind(prefix, w.lines);
    render_laws::lemma_emit_written(m.world, l, prefix, done, w.rest);
    let n = render::advance(m, EventView::SoftBreak).unwrap();
    assert(m.stack.last() == m.stack[1]);
    assert(n.world == line::whitespace(m.world, l, " "@));
    assert(n.stack =~= m.stack);
    assert(w.rest + seq![' '] =~= w.rest.push(' '));
    assert(done.push(prefix + text::trim_end(w.rest)) =~= lines + render_laws::behind(
        prefix,
        w.lines.push(w.rest),
    ));
    n
}

/// Texts come in a paragraph, with soft breaks between them.
proof fn lemma_texts_within(
    m: Machine,
    prefix: Seq<char>,
    max_width: nat,
    lines: Seq<Seq<char>>,
    first: LineView,
    texts: Seq<Seq<char>>,
) -> (n: Machine)
    requires
        is_within(
            m,
            prefix,
            max_width,
            lines,
            first,
            Wrapped { lines: Seq::empty(), rest: Seq::empty() },
        ),
    ensures
        render::run(m, soft_texts(texts)) == Some(n),
        is_within(n, prefix, max_width, lines, first, soft_wrap(texts, max_width as int)),
    decreases texts.len(),
{
    if texts.len() == 0 {
        m
    } else {
        let some = texts.drop_last();
        let width = max_width as int;
        let a = lemma_texts_within(m, prefix, max_width, lines, first, some);
        let w = soft_wrap(some, width);
        let events = soft_texts(texts);
        if texts.len() == 1 {
            let n = lemma_text_within(a, prefix, max_width, lines, first, w, texts.last());
            assert(events.drop_last() =~= soft_texts(some));
            n
        } else {
            let b = lemma_break_within(a, prefix, max_width, lines, first, w);
            let n = lemma_text_within(
                b,
                prefix,
                max_width,
                lines,
                first,
                soft_break(w, width),
                texts.last(),
            );
            assert(events.drop_last() =~= soft_texts(some).push(EventView::SoftBreak));
            assert(events.drop_last().drop_last() =~= soft_texts(some));
            assert(render::run(m, events.drop_last()) == Some(b));
            assert(events.last() == EventView::Text(texts.last()));
            n
        }
    }
}

/// A paragraph ends.
proof fn lemma_end_within(
    m: Machine,
    prefix: Seq<char>,
    max_width: nat,
    lines: Seq<Seq<char>>,
    first: LineView,
    w: Wrapped,
) -> (n: Machine)
    requires
        is_within(m, prefix, max_width, lines, first, w),
    ensures
        render::advance(m, EventView::End) == Some(n),
        n.stack == seq![root()],
        n.world.buffer.len() == 0,
        n.world.lines == m.world.lines,
        render_laws::has_written(
            n.world,
            n.world.lines.len() - 1,
            prefix,
            lines + render_laws::behind(prefix, all_lines(w)),
        ),
{
    reveal(render::advance);
    reveal(stack::step);
    let l = m.world.lines.len() - 1;
    let done = lines + render_laws::behind(prefix, w.lines);
    render_laws::lemma_emit_written(m.world, l, prefix, done, w.rest);
    let n = render::advance(m, EventView::End).unwrap();
    assert(m.stack.last() == m.stack[1]);
    assert(n.world == line::flushed(m.world, l));
    assert(n.stack =~= seq![root()]);
    assert(done.push(prefix + text::trim_end(w.rest)) =~= lines + render_laws::behind(
        prefix,
        w.lines.push(w.rest),
    ));
    n
}

proof fn lemma_soft_paragraph(
    m: Machine,
    prefix: Seq<char>,
    max_width: nat,
    lines: Seq<Seq<char>>,
    first: bool,
    texts: Seq<Seq<char>>,
) -> (n: Machine)
    requires
        render_laws::is_between(m, prefix, max_width, lines, first),
    ensures
        render::run(m, soft_paragraph(texts)) == Some(n),
        render_laws::is_between(
            n,
            prefix,
            max_width,
            (if first {
                lines
            } else {
                lines.push(prefix)
            }) + render_laws::behind(
                prefix,
                all_lines(soft_wrap(texts, max_width as int)),
            ),
            false,
        ),
{
    let before = if first {
        lines
    } else {
        lines.push(prefix)
    };
    let a = render_laws::lemma_paragraph_opens(m, prefix, max_width, lines, first);
    let none = Wrapped { lines: Seq::empty(), rest: Seq::empty() };
    assert(before + render_laws::behind(prefix, none.lines) =~= before);
    assert(a.stack =~= seq![a.stack[0], a.stack[1]]);
    assert(a.world.buffer =~= none.rest);
    let line = a.world.lines[0];
    let b = lemma_texts_within(a, prefix, max_width, before, line, texts);
    let w = soft_wrap(texts, max_width as int);
    let n = lemma_end_within(b, prefix, max_width, before, line, w);
    let events = soft_paragraph(texts);
    let open = EventView::Start(TagView::Paragraph);
    let head = seq![open] + soft_texts(texts);
    assert(events.drop_last() =~= head);
    render::lemma_run_split(m, head, 1);
    assert(head.take(1) =~= seq![open]);
    assert(head.skip(1) =~= soft_texts(texts));
    assert(seq![open].drop_last() =~= Seq::<EventView>::empty());
    assert(render::run(m, seq![open]) == Some(a)) by {
        reveal_with_fuel(render::run, 2);
    }
    n
}

proof fn lemma_soft_paragraphs(
    prefix: Seq<char>,
    max_width: nat,
    paragraphs: Seq<Seq<Seq<char>>>,
) -> (m: Machine)
    ensures
        render::run(render::start(prefix, max_width), soft_paragraphs(paragraphs)) == Some(m),
        render_laws::is_between(
            m,
            prefix,
            max_width,
            prefix_laws::put_behind(prefix, soft_document(paragraphs, max_width as int)),
            paragraphs.len() == 0,
        ),
    decreases paragraphs.len(),
{
    let m0 = render::start(prefix, max_width);
    let width = max_width as int;
    if paragraphs.len() == 0 {
        assert(prefix_laws::put_behind(prefix, soft_document(paragraphs, width)) =~= Seq::<Seq<char>>::empty());
        m0
    } else {
        let some = paragraphs.drop_last();
        let texts = paragraphs.last();
        let first = paragraphs.len() == 1;
        let before = prefix_laws::put_behind(prefix, soft_document(some, width));
        let a = lemma_soft_paragraphs(prefix, max_width, some);
        let n = lemma_soft_paragraph(a, prefix, max_width, before, first, texts);
        let events = soft_paragraphs(paragraphs);
        let k = soft_paragraphs(some).len() as int;
        render::lemma_run_split(m0, events, k);
        assert(events.take(k) =~= soft_paragraphs(some));
        assert(events.skip(k) =~= soft_paragraph(texts));
        let lines = all_lines(soft_wrap(texts, width));
        assert(render_laws::behind(prefix, lines) =~= prefix_laws::put_behind(prefix, soft_lines(texts, width)));
        assert(prefix + Seq::<char>::empty() =~= prefix);
        assert((if first {
            before
        } else {
            before.push(prefix)
        }) + render_laws::behind(prefix, lines) =~= prefix_laws::put_behind(
            prefix,
            soft_document(paragraphs, width),
        ));
        n
    }
}

/// No word goes over from a soft break to what is behind it.
proof fn lemma_break_words(w: Wrapped, width: int)
    ensures
        ({
            let v = soft_break(w, width);
            &&& line_laws::words_of(v.lines) + line_laws::words(v.rest) == line_laws::words_of(
                w.lines,
            ) + line_laws::words(w.rest)
            &&& v.rest.len() == 0 || text::white_space(v.rest.last())
        }),
{
    let v = soft_break(w, width);
    if text::byte_len(w.rest) + 1 < width {
        assert(w.rest.push(' ').drop_last() =~= w.rest);
    } else if w.rest.len() > 0 {
        line_laws::lemma_words_of_push(w.lines, w.rest);
        assert(line_laws::words_of(v.lines) + line_laws::words(v.rest) =~= line_laws::words_of(
            v.lines,
        ));
    }
}

/// Further text adds its words, if no word goes over into it.
proof fn lemma_more_words(w: Wrapped, s: Seq<char>, width: int)
    requires
        w.rest.len() == 0 || text::white_space(w.rest.last()),
    ensures
        ({
            let v = more_text(w, s, width);
            line_laws::words_of(v.lines) + line_laws::words(v.rest) == line_laws::words_of(w.lines)
                + line_laws::words(w.rest) + line_laws::words(s)
        }),
{
    let t = if w.rest.len() == 0 {
        text::trim(s)
    } else {
        s
    };
    let more = line::wrap(w.rest, t, width);
    line_laws::lemma_words_trim(s);
    line_laws::law_wrap_keeps_words(w.rest, t, width);
    line_laws::lemma_words_concat(w.rest, t);
    line_laws::lemma_words_of_concat(w.lines, more.lines);
    let a = line_laws::words_of(w.lines);
    assert(a + line_laws::words_of(more.lines) + line_laws::words(more.rest) =~= a + (
    line_laws::words_of(more.lines) + line_laws::words(more.rest)));
    assert(a + line_laws::words(w.rest) + line_laws::words(t) =~= a + (line_laws::words(w.rest)
        + line_laws::words(t)));
}

proof fn lemma_soft_words(texts: Seq<Seq<char>>, width: int)
    ensures
        ({
            let w = soft_wrap(texts, width);
            line_laws::words_of(w.lines) + line_laws::words(w.rest) == line_laws::words_of(texts)
        }),
    decreases texts.len(),
{
    if texts.len() > 0 {
        let some = texts.drop_last();
        let w = soft_wrap(some, width);
        lemma_soft_words(some, width);
        lemma_break_words(w, width);
        let v = if texts.len() == 1 {
            w
        } else {
            soft_break(w, width)
        };
        lemma_more_words(v, texts.last(), width);
        line_laws::lemma_words_of_push(some, texts.last());
        assert(some.push(texts.last()) =~= texts);
    } else {
        let w = soft_wrap(texts, width);
        assert(line_laws::words_of(w.lines) + line_laws::words(w.rest) =~= line_laws::words_of(
            texts,
        ));
    }
}

/// No line of `w` is longer than the width.
spec fn is_never_over(w: Wrapped, width: int) -> bool {
    &&& forall|i: int| 0 <= i < w.lines.len() ==> text::byte_len(#[trigger] w.lines[i]) <= width
    &&& text::byte_len(w.rest) <= width
}

proof fn lemma_break_fits(w: Wrapped, width: int)
    requires
        is_never_over(w, width),
    ensures
        is_never_over(soft_break(w, width), width),
{
    let v = soft_break(w, width);
    text::lemma_byte_len_bounds(Seq::empty());
    assert(w.rest.push(' ') =~= w.rest + seq![' ']);
    text::lemma_byte_len_concat(w.rest, seq![' ']);
    assert(text::byte_len(seq![' ']) == 1) by {
        text::lemma_byte_len_one(' ');
        reveal_with_fuel(vstd::utf8::encode_utf8, 2);
        assert(seq![' '].drop_first() =~= Seq::<char>::empty());
    }
    assert(0 <= text::byte_len(w.rest) <= width);
    assert forall|i: int| 0 <= i < v.lines.len() implies text::byte_len(#[trigger] v.lines[i])
        <= width by {
        if i < w.lines.len() {
            assert(v.lines[i] == w.lines[i]);
        }
    }
}

proof fn lemma_more_fits(w: Wrapped, s: Seq<char>, width: int)
    requires
        is_never_over(w, width),
        line_laws::has_short_pieces(s, width),
    ensures
        is_never_over(more_text(w, s, width), width),
{
    let t = if w.rest.len() == 0 {
        text::trim(s)
    } else {
        s
    };
    let more = line::wrap(w.rest, t, width);
    let v = more_text(w, s, width);
    line_laws::lemma_trim_short(s, width);
    line_laws::law_wrap_never_over(w.rest, t, width);
    assert forall|i: int| 0 <= i < v.lines.len() implies text::byte_len(#[trigger] v.lines[i])
        <= width by {
        if i < w.lines.len() {
            assert(v.lines[i] == w.lines[i]);
        } else {
            assert(v.lines[i] == more.lines[i - w.lines.len()]);
        }
    }
}

/// Each of the texts has short pieces only.
pub open spec fn have_short_pieces(texts: Seq<Seq<char>>, width: int) -> bool {
    forall|i: int| 0 <= i < texts.len() ==> line_laws::has_short_pieces(#[trigger] texts[i], width)
}

proof fn lemma_soft_fits(texts: Seq<Seq<char>>, width: int)
    requires
        have_short_pieces(texts, width),
        width >= 0,
    ensures
        is_never_over(soft_wrap(texts, width), width),
    decreases texts.len(),
{
    text::lemma_byte_len_bounds(Seq::empty());
    if texts.len() > 0 {
        let some = texts.drop_last();
        assert forall|i: int| 0 <= i < some.len() implies line_laws::has_short_pieces(
            #[trigger] some[i],
            width,
        ) by {
            assert(some[i] == texts[i]);
        }
        assert(line_laws::has_short_pieces(texts[texts.len() - 1], width));
        let w = soft_wrap(some, width);
        lemma_soft_fits(some, width);
        lemma_break_fits(w, width);
        lemma_more_fits(
            if texts.len() == 1 {
                w
            } else {
                soft_break(w, width)
            },
            texts.last(),
            width,
        );
    }
}

proof fn lemma_trim_end_bytes(s: Seq<char>)
    ensures
        text::byte_len(text::trim_end(s)) <= text::byte_len(s),
{
    let t = text::trim_end(s);
    line_laws::lemma_trim_end_part(s);
    assert(s =~= t + s.skip(t.len() as int));
    text::lemma_byte_len_concat(t, s.skip(t.len() as int));
}

/// The lines of a paragraph of several texts with soft breaks between them: their
/// words are those of the texts, in order, and none is longer than the width if
/// each piece between spaces is at least two bytes shorter.
pub proof fn law_soft_lines(texts: Seq<Seq<char>>, max_width: nat)
    ensures
        line_laws::words_of(soft_lines(texts, max_width as int)) == line_laws::words_of(texts),
        have_short_pieces(texts, max_width as int) ==> forall|i: int|
            0 <= i < soft_lines(texts, max_width as int).len() ==> text::byte_len(
                #[trigger] soft_lines(texts, max_width as int)[i],
            ) <= max_width,
{
    let width = max_width as int;
    let w = soft_wrap(texts, width);
    let all = all_lines(w);
    let lines = soft_lines(texts, width);
    lemma_soft_words(texts, width);
    line_laws::lemma_words_of_push(w.lines, w.rest);
    line_laws::lemma_trimmed_words(all);
    if w.rest.len() == 0 {
        assert(line_laws::words_of(w.lines) + line_laws::words(w.rest) =~= line_laws::words_of(
            w.lines,
        ));
    }
    if have_short_pieces(texts, width) {
        lemma_soft_fits(texts, width);
        assert forall|i: int| 0 <= i < lines.len() implies text::byte_len(#[trigger] lines[i])
            <= max_width by {
            lemma_trim_end_bytes(all[i]);
            if i < w.lines.len() {
                assert(all[i] == w.lines[i]);
            }
        }
    }
}

/// A document of paragraphs, each of several texts with soft breaks between them,
/// is written as the lines of its paragraphs, with an empty line between two of
/// them, each behind the prefix.
pub proof fn law_soft_paragraphs(
    prefix: Seq<char>,
    max_width: nat,
    paragraphs: Seq<Seq<Seq<char>>>,
)
    ensures
        render::rendered(prefix, max_width, soft_paragraphs(paragraphs)) == Some(
            comment::join(prefix_laws::put_behind(prefix, soft_document(paragraphs, max_width as int))),
        ),
{
    let m = lemma_soft_paragraphs(prefix, max_width, paragraphs);
}

/// A paragraph of several texts with soft breaks between them: every line that is
/// written is the prefix and a line of at most the given width, if each piece
/// between spaces is at least two bytes shorter, and the words of the lines are
/// those of the texts, in order.
pub proof fn law_soft_paragraph(prefix: Seq<char>, max_width: nat, texts: Seq<Seq<char>>)
    ensures
        ({
            let lines = soft_lines(texts, max_width as int);
            &&& render::rendered(prefix, max_width, soft_paragraph(texts)) == Some(
                comment::join(prefix_laws::put_behind(prefix, lines)),
            )
            &&& line_laws::words_of(lines) == line_laws::words_of(texts)
            &&& have_short_pieces(texts, max_width as int) ==> forall|i: int|
                0 <= i < lines.len() ==> text::byte_len(#[trigger] lines[i]) <= max_width
        }),
{
    let one = seq![texts];
    law_soft_lines(texts, max_width);
    law_soft_paragraphs(prefix, max_width, one);
    assert(one.drop_last() =~= Seq::<Seq<Seq<char>>>::empty());
    assert(soft_paragraphs(one) =~= soft_paragraph(texts)) by {
        reveal_with_fuel(soft_paragraphs, 2);
    }
}

} // verus!
