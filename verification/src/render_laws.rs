//! What holds of every document that is written.
use vstd::prelude::*;
use crate::comment;
use crate::render::{self, Machine};
use crate::line::{self, World};
use crate::markdown::{EventView, TagView};
use crate::stack::{self, BlockView, ElView, InlineView, ResView};
use crate::text;

verus! {

/// The part writes the line out when it ends, or before a block comes in it.
pub open spec fn owes(el: ElView) -> bool {
    match el {
        ElView::Inline(inline) => inline.line_root,
        ElView::Block(block) => block.was_inline,
        ElView::CodeBlock { line: _ } => true,
        _ => false,
    }
}

/// Some open part writes the line out.
pub open spec fn some_owes(els: Seq<ElView>) -> bool {
    exists|i: int| 0 <= i < els.len() && owes(#[trigger] els[i])
}

/// A part of a line that does not end it stands within one.
pub open spec fn is_chained(els: Seq<ElView>) -> bool {
    forall|i: int|
        0 <= i < els.len() && (#[trigger] els[i]) is Inline && !owes(els[i]) ==> i > 0 && els[i - 1]
            is Inline
}

/// What stands in the buffer will be written out.
pub open spec fn is_owed(m: Machine) -> bool {
    &&& is_chained(m.stack)
    &&& m.world.buffer.len() > 0 ==> some_owes(m.stack)
}

proof fn lemma_inline_owes(els: Seq<ElView>, i: int)
    requires
        is_chained(els),
        0 <= i < els.len(),
        els[i] is Inline,
    ensures
        some_owes(els),
    decreases i,
{
    if !owes(els[i]) {
        lemma_inline_owes(els, i - 1);
    }
}

/// What the step of the innermost part leaves to be written out.
spec fn step_owed(el: ElView, w: World, top: ElView, v: World, res: ResView) -> bool {
    match res {
        ResView::Push(next) => {
            &&& next is Inline ==> owes(next) || el is Inline
            &&& owes(next) || el is Inline || v.buffer.len() == 0 || v.buffer == w.buffer && !owes(
                el,
            )
        },
        ResView::Keep => el is Inline || owes(top) || v.buffer == w.buffer && owes(top) == owes(el),
        ResView::Pop => v.buffer.len() == 0 || el is Inline && !owes(el) || v.buffer == w.buffer
            && !owes(el),
    }
}

/// A block that comes leaves the buffer as it was, if the line had not been begun
/// here, or empty.
proof fn lemma_block_ev_owed(el: BlockView, w: World)
    ensures
        stack::block_ev(el, w) matches Some((next, v)) ==> !next.was_inline && (v.buffer.len() == 0
            || v.buffer == w.buffer && !el.was_inline),
{
}

proof fn lemma_block_open_owed(w: World, l: int, tag: TagView)
    ensures
        stack::block_open(w, l, tag) matches Some((v, res)) ==> res matches ResView::Push(next) && (
        owes(next) || next !is Inline && v.buffer == w.buffer),
{
}

proof fn lemma_inline_start_owed(w: World, l: int, tag: TagView, root: bool)
    ensures
        stack::inline_start(w, l, tag, root) matches Some((v, res)) ==> res matches ResView::Push(
            next,
        ) && next is Inline && owes(next) == root,
{
}

proof fn lemma_block_owed(el: BlockView, w: World, e: EventView)
    ensures
        stack::block_step(el, w, e) matches Some((next, v, res)) ==> step_owed(
            ElView::Block(el),
            w,
            ElView::Block(next),
            v,
            res,
        ),
{
    if let EventView::Start(tag) = e {
        lemma_block_ev_owed(el, w);
        lemma_inline_start_owed(w, el.line, tag, true);
        if let Some((next, v)) = stack::block_ev(el, w) {
            lemma_block_open_owed(v, el.line, tag);
        }
    }
}

proof fn lemma_inline_owed(el: InlineView, w: World, e: EventView)
    ensures
        stack::inline_step(el, w, e) matches Some((v, res)) ==> step_owed(
            ElView::Inline(el),
            w,
            ElView::Inline(el),
            v,
            res,
        ),
{
    if let EventView::Start(tag) = e {
        lemma_inline_start_owed(w, el.line, tag, false);
    }
}

proof fn lemma_step_owed(el: ElView, w: World, e: EventView)
    ensures
        stack::step(el, w, e) matches Some((top, v, res)) ==> {
            &&& step_owed(el, w, top, v, res)
            &&& top is Inline <==> el is Inline
            &&& el is Inline ==> top == el
        },
{
    reveal(stack::step);
    match el {
        ElView::Inline(inline) => {
            lemma_inline_owed(inline, w, e);
        },
        ElView::Block(block) => {
            lemma_block_owed(block, w, e);
        },
        _ => {},
    }
}

proof fn lemma_advance_owed(m: Machine, e: EventView)
    requires
        is_owed(m),
    ensures
        render::advance(m, e) matches Some(next) ==> is_owed(next),
{
    reveal(render::advance);
    if m.stack.len() > 0 {
        let el = m.stack.last();
        let rest = m.stack.drop_last();
        lemma_step_owed(el, m.world, e);
        if let Some((top, v, res)) = stack::step(el, m.world, e) {
            let next = render::advance(m, e).unwrap();
            let at = rest.len() as int;
            assert forall|i: int|
                0 <= i < next.stack.len() && (#[trigger] next.stack[i]) is Inline && !owes(
                    next.stack[i],
                ) implies i > 0 && next.stack[i - 1] is Inline by {
                if i < at {
                    assert(next.stack[i] == m.stack[i]);
                    assert(next.stack[i - 1] == m.stack[i - 1]);
                } else if i == at {
                    assert(m.stack[i] == el);
                    assert(i > 0 ==> next.stack[i - 1] == m.stack[i - 1]);
                }
            }
            assert(is_chained(next.stack));
            if next.world.buffer.len() > 0 {
                match res {
                    ResView::Push(opened) => {
                        assert(next.stack[at] == top);
                        assert(next.stack[at + 1] == opened);
                        if el is Inline {
                            lemma_inline_owes(next.stack, at);
                        }
                    },
                    ResView::Keep => {
                        assert(next.stack[at] == top);
                        if el is Inline {
                            lemma_inline_owes(next.stack, at);
                        }
                    },
                    ResView::Pop => {
                        if el is Inline {
                            assert(m.stack[at] == el);
                            assert(next.stack[at - 1] == m.stack[at - 1]);
                            lemma_inline_owes(next.stack, at - 1);
                        }
                    },
                }
                if !some_owes(next.stack) {
                    let i = choose|i: int| 0 <= i < m.stack.len() && owes(#[trigger] m.stack[i]);
                    if i < at {
                        assert(next.stack[i] == m.stack[i]);
                    }
                }
            }
        }
    }
}

proof fn lemma_run_owed(m: Machine, events: Seq<EventView>)
    requires
        is_owed(m),
    ensures
        render::run(m, events) matches Some(next) ==> is_owed(next),
    decreases events.len(),
{
    if events.len() > 0 {
        lemma_run_owed(m, events.drop_last());
        if let Some(before) = render::run(m, events.drop_last()) {
            lemma_advance_owed(before, events.last());
        }
    }
}

/// No text is left behind: once no open part has a line to write out, the whole
/// document has been written.
pub proof fn law_nothing_left(prefix: Seq<char>, max_width: nat, events: Seq<EventView>)
    ensures
        render::run(render::start(prefix, max_width), events) matches Some(m) ==> (!some_owes(
            m.stack,
        ) ==> m.world.buffer.len() == 0),
{
    lemma_run_owed(render::start(prefix, max_width), events);
}

/// How many more parts are open once the innermost part `el` has handled `e`. An
/// image opens none, nor does a link among blocks; anything else that starts opens
/// one, and an end closes one.
pub open spec fn opened(el: ElView, e: EventView) -> int {
    match e {
        EventView::Start(TagView::Image { url: _, title: _ }) => 0,
        EventView::Start(TagView::Link { url: _, title: _ }) => if el is Block {
            0
        } else {
            1
        },
        EventView::Start(_) => 1,
        EventView::End => -1,
        _ => 0,
    }
}

proof fn lemma_inline_opened(w: World, l: int, tag: TagView, root: bool)
    ensures
        stack::inline_start(w, l, tag, root) matches Some((v, res)) ==> res is Push,
        stack::block_open(w, l, tag) matches Some((v, res)) ==> res is Push,
{
}

proof fn lemma_step_opened(el: ElView, w: World, e: EventView)
    ensures
        stack::step(el, w, e) matches Some((top, v, res)) ==> opened(el, e) == (match res {
            ResView::Push(_) => 1int,
            ResView::Keep => 0,
            ResView::Pop => -1,
        }),
{
    reveal(stack::step);
    match el {
        ElView::Inline(inline) => {
            if let EventView::Start(tag) = e {
                lemma_inline_opened(w, inline.line, tag, false);
            }
        },
        ElView::Block(block) => {
            if let EventView::Start(tag) = e {
                lemma_inline_opened(w, block.line, tag, true);
                if let Some((next, v)) = stack::block_ev(block, w) {
                    lemma_inline_opened(v, block.line, tag, true);
                }
            }
        },
        _ => {},
    }
}

/// Parts open and close one at a time, as the events say; those that are open
/// around the innermost one stay as they are.
pub proof fn law_nesting(m: Machine, e: EventView)
    ensures
        render::advance(m, e) matches Some(next) ==> {
            &&& m.stack.len() > 0
            &&& next.stack.len() == m.stack.len() + opened(m.stack.last(), e)
            &&& m.stack.drop_last().is_prefix_of(next.stack)
        },
{
    reveal(render::advance);
    if m.stack.len() > 0 {
        lemma_step_opened(m.stack.last(), m.world, e);
        if let Some(next) = render::advance(m, e) {
            assert(m.stack.drop_last() =~= next.stack.subrange(0, m.stack.len() - 1));
        }
    }
}

/// The lines that are not empty.
pub open spec fn not_empty(lines: Seq<Seq<char>>) -> Seq<Seq<char>>
    decreases lines.len(),
{
    if lines.len() == 0 {
        Seq::empty()
    } else if lines.last().len() == 0 {
        not_empty(lines.drop_last())
    } else {
        not_empty(lines.drop_last()).push(lines.last())
    }
}

/// Code is never broken: on a line that nothing stands on yet, each line of it
/// that is not empty is written on a line of its own, whatever the width.
pub proof fn law_code_unbroken(w: World, l: int, lines: Seq<Seq<char>>)
    requires
        w.buffer.len() == 0,
    ensures
        stack::code_lines(w, l, lines) == line::emit_all(w, l, not_empty(lines)),
        stack::code_lines(w, l, lines).buffer.len() == 0,
    decreases lines.len(),
{
    if lines.len() > 0 {
        let some = lines.drop_last();
        let last = lines.last();
        law_code_unbroken(w, l, some);
        let v = stack::code_lines(w, l, some);
        let u = line::unbreakable(v, l, last);
        assert(v.buffer + last =~= last);
        assert(line::flushed(v, l) == v);
        if last.len() == 0 {
            assert(u =~= v);
        } else {
            assert(not_empty(lines).drop_last() =~= not_empty(some));
            assert(line::flushed(u, l) =~= line::emit(v, l, last));
        }
    }
}

/// A paragraph of plain text.
pub open spec fn paragraph(s: Seq<char>) -> Seq<EventView> {
    seq![EventView::Start(TagView::Paragraph), EventView::Text(s), EventView::End]
}

/// A document of paragraphs of plain text.
pub open spec fn paragraphs(texts: Seq<Seq<char>>) -> Seq<EventView>
    decreases texts.len(),
{
    if texts.len() == 0 {
        Seq::empty()
    } else {
        paragraphs(texts.drop_last()) + paragraph(texts.last())
    }
}

/// The text of a paragraph, broken over lines.
pub open spec fn paragraph_lines(s: Seq<char>, width: int) -> Seq<Seq<char>> {
    let w = line::wrap(Seq::empty(), text::trim(s), width);
    if w.rest.len() == 0 {
        w.lines
    } else {
        w.lines.push(w.rest)
    }
}

/// Lines behind a prefix, without white space at their end.
pub open spec fn behind(prefix: Seq<char>, lines: Seq<Seq<char>>) -> Seq<Seq<char>> {
    lines.map_values(|c: Seq<char>| prefix + text::trim_end(c))
}

/// The lines of a document of paragraphs, with a line between two of them that
/// holds the prefix alone.
pub open spec fn document_lines(prefix: Seq<char>, width: int, texts: Seq<Seq<char>>) -> Seq<
    Seq<char>,
>
    decreases texts.len(),
{
    if texts.len() == 0 {
        Seq::empty()
    } else {
        let before = document_lines(prefix, width, texts.drop_last());
        let lines = behind(prefix, paragraph_lines(texts.last(), width));
        if texts.len() == 1 {
            lines
        } else {
            before.push(prefix) + lines
        }
    }
}

/// `w` has written `lines`, and goes on at the line state `l`, whose lines come
/// behind `prefix`.
pub open spec fn has_written(w: World, l: int, prefix: Seq<char>, lines: Seq<Seq<char>>) -> bool {
    &&& 0 <= l < w.lines.len()
    &&& w.lines[l].first_prefix is None
    &&& w.lines[l].prefix == prefix
    &&& !w.lines[l].explicit_wrap
    &&& w.out == comment::join(lines)
    &&& w.need_nl == (lines.len() > 0)
}

/// The lines that have been written once one more is written out.
pub proof fn lemma_emit_written(
    w: World,
    l: int,
    prefix: Seq<char>,
    lines: Seq<Seq<char>>,
    content: Seq<char>,
)
    requires
        has_written(w, l, prefix, lines),
    ensures
        has_written(
            line::emit(w, l, content),
            l,
            prefix,
            lines.push(prefix + text::trim_end(content)),
        ),
        line::emit(w, l, content).lines == w.lines,
{
    let more = prefix + text::trim_end(content);
    let v = line::emit(w, l, content);
    assert(lines.push(more).drop_last() =~= lines);
    assert(v.out =~= comment::join(lines.push(more)));
    assert(v.lines =~= w.lines);
}

/// The lines that have been written once more are written out.
pub proof fn lemma_emit_all_written(
    w: World,
    l: int,
    prefix: Seq<char>,
    lines: Seq<Seq<char>>,
    contents: Seq<Seq<char>>,
)
    requires
        has_written(w, l, prefix, lines),
    ensures
        has_written(line::emit_all(w, l, contents), l, prefix, lines + behind(prefix, contents)),
        line::emit_all(w, l, contents).lines == w.lines,
    decreases contents.len(),
{
    if contents.len() == 0 {
        assert(lines + behind(prefix, contents) =~= lines);
    } else {
        let some = contents.drop_last();
        lemma_emit_all_written(w, l, prefix, lines, some);
        let v = line::emit_all(w, l, some);
        lemma_emit_written(v, l, prefix, lines + behind(prefix, some), contents.last());
        assert((lines + behind(prefix, some)).push(prefix + text::trim_end(contents.last()))
            =~= lines + behind(prefix, contents));
    }
}

/// The document is between two blocks, and `lines` have been written of it.
pub open spec fn is_between(
    m: Machine,
    prefix: Seq<char>,
    max_width: nat,
    lines: Seq<Seq<char>>,
    first: bool,
) -> bool {
    &&& m.stack == seq![
        ElView::Block(BlockView { line: 0, first, was_inline: false, end_bound: None }),
    ]
    &&& m.world.buffer.len() == 0
    &&& has_written(m.world, 0, prefix, lines)
    &&& m.world.lines[0].max_width == max_width
}

/// A paragraph opens.
pub proof fn lemma_paragraph_opens(
    m: Machine,
    prefix: Seq<char>,
    max_width: nat,
    lines: Seq<Seq<char>>,
    first: bool,
) -> (n: Machine)
    requires
        is_between(m, prefix, max_width, lines, first),
    ensures
        render::advance(m, EventView::Start(TagView::Paragraph)) == Some(n),
        n.stack.len() == 2,
        n.stack[0] == ElView::Block(
            (BlockView { line: 0, first: false, was_inline: false, end_bound: None }),
        ),
        n.stack[1] == ElView::Inline(
            (InlineView { end_bound: None, line: n.world.lines.len() - 1, line_root: true }),
        ),
        n.world.buffer.len() == 0,
        n.world.lines.len() == m.world.lines.len() + 1,
        n.world.lines[0] == m.world.lines[0],
        n.world.lines.last().max_width == max_width,
        has_written(
            n.world,
            n.world.lines.len() - 1,
            prefix,
            if first {
                lines
            } else {
                lines.push(prefix)
            },
        ),
{
    reveal(render::advance);
    reveal(stack::step);
    lemma_emit_written(m.world, 0, prefix, lines, Seq::empty());
    assert(prefix + text::trim_end(Seq::empty()) =~= prefix);
    assert(prefix + Seq::<char>::empty() =~= prefix);
    render::advance(m, EventView::Start(TagView::Paragraph)).unwrap()
}

/// The text of a paragraph comes, and its end.
proof fn lemma_paragraph_closes(
    m: Machine,
    prefix: Seq<char>,
    max_width: nat,
    lines: Seq<Seq<char>>,
    s: Seq<char>,
) -> (n: Machine)
    requires
        m.stack.len() == 2,
        m.stack[0] == ElView::Block(
            (BlockView { line: 0, first: false, was_inline: false, end_bound: None }),
        ),
        m.stack[1] == ElView::Inline(
            (InlineView { end_bound: None, line: m.world.lines.len() - 1, line_root: true }),
        ),
        m.world.lines.len() > 1,
        m.world.lines.last().max_width == max_width,
        m.world.buffer.len() == 0,
        has_written(m.world, m.world.lines.len() - 1, prefix, lines),
    ensures
        render::advance(m, EventView::Text(s)) matches Some(half) && render::advance(
            half,
            EventView::End,
        ) == Some(n),
        n.stack == seq![m.stack[0]],
        n.world.buffer.len() == 0,
        n.world.lines == m.world.lines,
        has_written(
            n.world,
            n.world.lines.len() - 1,
            prefix,
            lines + behind(prefix, paragraph_lines(s, max_width as int)),
        ),
{
    reveal(render::advance);
    reveal(stack::step);
    let l = m.world.lines.len() - 1;
    let w = line::wrap(m.world.buffer, text::trim(s), max_width as int);
    assert(m.world.buffer =~= Seq::<char>::empty());
    lemma_emit_all_written(m.world, l, prefix, lines, w.lines);
    let half = render::advance(m, EventView::Text(s)).unwrap();
    assert(half.world == line::breakable(m.world, l, s));
    assert(half.stack =~= m.stack);
    let done = lines + behind(prefix, w.lines);
    assert(has_written(half.world, l, prefix, done));
    lemma_emit_written(half.world, l, prefix, done, w.rest);
    assert(done.push(prefix + text::trim_end(w.rest)) =~= lines + behind(
        prefix,
        w.lines.push(w.rest),
    ));
    let n = render::advance(half, EventView::End).unwrap();
    assert(n.stack =~= seq![m.stack[0]]);
    n
}

proof fn lemma_paragraphs(prefix: Seq<char>, max_width: nat, texts: Seq<Seq<char>>) -> (m: Machine)
    ensures
        render::run(render::start(prefix, max_width), paragraphs(texts)) == Some(m),
        is_between(
            m,
            prefix,
            max_width,
            document_lines(prefix, max_width as int, texts),
            texts.len() == 0,
        ),
    decreases texts.len(),
{
    let m0 = render::start(prefix, max_width);
    if texts.len() == 0 {
        m0
    } else {
        let first = texts.len() == 1;
        let before = document_lines(prefix, max_width as int, texts.drop_last());
        let m = lemma_paragraphs(prefix, max_width, texts.drop_last());
        let a = lemma_paragraph_opens(m, prefix, max_width, before, first);
        let lines = if first {
            before
        } else {
            before.push(prefix)
        };
        let b = lemma_paragraph_closes(a, prefix, max_width, lines, texts.last());
        let s = texts.last();
        let events = paragraphs(texts);
        let old_events = paragraphs(texts.drop_last());
        assert(events.drop_last().drop_last().drop_last() =~= old_events);
        assert(events.drop_last().drop_last().last() == EventView::Start(TagView::Paragraph));
        assert(events.drop_last().last() == EventView::Text(s));
        assert(events.last() == EventView::End);
        reveal_with_fuel(render::run, 4);
        assert(document_lines(prefix, max_width as int, texts) =~= lines + behind(
            prefix,
            paragraph_lines(s, max_width as int),
        ));
        b
    }
}

/// A document of paragraphs is written as its lines say: each paragraph broken
/// over lines of the given width, each line behind the prefix, and a line between
/// two paragraphs.
pub proof fn law_paragraphs(prefix: Seq<char>, max_width: nat, texts: Seq<Seq<char>>)
    ensures
        render::rendered(prefix, max_width, paragraphs(texts)) == Some(
            comment::join(document_lines(prefix, max_width as int, texts)),
        ),
{
    let m = lemma_paragraphs(prefix, max_width, texts);
}

} // verus!
