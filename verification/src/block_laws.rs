//! What is written for the blocks of a document: paragraphs, headings, quotes, code
//! and lists, one within the other.
use vstd::prelude::*;
use crate::comment;
use crate::line::{self, LineView, World};
use crate::markdown::{EventView, TagView};
use crate::render::{self, Machine};
use crate::render_laws;
use crate::span_laws::{self, Span};
use crate::stack::{self, BlockView, ElView, InlineView};
use crate::text;
use crate::text_laws;

verus! {

/// A block of a document.
pub enum Block {
    /// A paragraph with code, emphasis, links and images in it.
    Paragraph(Seq<Span>),
    /// A paragraph of plain text.
    Text(Seq<char>),
    /// A heading of plain text.
    Heading { level: nat, s: Seq<char> },
    /// A heading with code, emphasis, links and images in it.
    Title { level: nat, spans: Seq<Span> },
    /// With the language, if it has one, and the text in pieces.
    Code { lang: Option<Seq<char>>, texts: Seq<Seq<char>> },
    Quote(Seq<Block>),
    Bullets(Seq<Item>),
    Numbers { first: u64, items: Seq<Item> },
}

/// An item of a list: text, and the blocks behind it.
pub struct Item {
    pub text: Seq<char>,
    pub blocks: Seq<Block>,
}

/// The events of texts, one after the other.
pub open spec fn text_events(texts: Seq<Seq<char>>) -> Seq<EventView> {
    texts.map_values(|s: Seq<char>| EventView::Text(s))
}

/// The events of a block.
pub open spec fn block_events(block: Block) -> Seq<EventView>
    decreases block,
{
    match block {
        Block::Paragraph(spans) => span_laws::span_paragraph(spans),
        Block::Text(s) => span_laws::enclosed(TagView::Paragraph, seq![EventView::Text(s)]),
        Block::Heading { level, s } => span_laws::enclosed(
            TagView::Heading(level),
            seq![EventView::Text(s)],
        ),
        Block::Title { level, spans } => span_laws::enclosed(
            TagView::Heading(level),
            span_laws::spans_events(spans),
        ),
        Block::Code { lang, texts } => span_laws::enclosed(
            TagView::CodeBlock(lang),
            text_events(texts),
        ),
        Block::Quote(blocks) => span_laws::enclosed(TagView::BlockQuote, blocks_events(blocks)),
        Block::Bullets(items) => span_laws::enclosed(TagView::List(None), items_events(items)),
        Block::Numbers { first, items } => span_laws::enclosed(
            TagView::List(Some(first)),
            items_events(items),
        ),
    }
}

/// The events of blocks, one after the other.
pub open spec fn blocks_events(blocks: Seq<Block>) -> Seq<EventView>
    decreases blocks,
{
    if blocks.len() == 0 {
        Seq::empty()
    } else {
        blocks_events(blocks.subrange(0, blocks.len() - 1)) + block_events(
            blocks[blocks.len() - 1],
        )
    }
}

/// The events of an item: its text, if it has any, and its blocks.
pub open spec fn item_events(item: Item) -> Seq<EventView>
    decreases item,
{
    let text = if item.text.len() == 0 {
        Seq::empty()
    } else {
        seq![EventView::Text(item.text)]
    };
    span_laws::enclosed(TagView::Item, text + blocks_events(item.blocks))
}

/// The events of items, one after the other.
pub open spec fn items_events(items: Seq<Item>) -> Seq<EventView>
    decreases items,
{
    if items.len() == 0 {
        Seq::empty()
    } else {
        items_events(items.subrange(0, items.len() - 1)) + item_events(items[items.len() - 1])
    }
}

/// Lines of text: `first` before the first of them, or the prefix, the prefix before
/// the others, and `mark` behind each.
pub open spec fn led(
    first: Option<Seq<char>>,
    prefix: Seq<char>,
    texts: Seq<Seq<char>>,
    mark: Seq<char>,
) -> Seq<Seq<char>> {
    Seq::new(
        texts.len(),
        |i: int|
            (if i == 0 && first is Some {
                first.unwrap()
            } else {
                prefix
            }) + text::trim_end(texts[i]) + mark,
    )
}

/// `mark` behind what comes before the first line.
pub open spec fn led_by(first: Option<Seq<char>>, prefix: Seq<char>, mark: Seq<char>) -> Option<
    Seq<char>,
> {
    match first {
        Some(p) => Some(p + mark),
        None => Some(prefix + mark),
    }
}

/// The lines of texts, one text after the other.
pub open spec fn lines_of(texts: Seq<Seq<char>>) -> Seq<Seq<char>>
    decreases texts.len(),
{
    if texts.len() == 0 {
        Seq::empty()
    } else {
        lines_of(texts.drop_last()) + text::text_lines(texts.last())
    }
}

/// Three back quotes.
pub open spec fn quotes() -> Seq<char> {
    seq!['`', '`', '`']
}

/// What is written of code between fences, line by line: its lines as they are, but
/// for those that are empty. The first one stands behind the fence where it fits.
pub open spec fn code_texts(fence: Seq<char>, lines: Seq<Seq<char>>, width: nat) -> Seq<Seq<char>> {
    if lines.len() == 0 {
        if text::byte_len(fence) + text::byte_len(quotes()) <= width {
            seq![fence + quotes()]
        } else {
            seq![fence, quotes()]
        }
    } else if text::byte_len(fence) + text::byte_len(lines[0]) <= width {
        (seq![fence + lines[0]] + render_laws::not_empty(lines.drop_first())).push(quotes())
    } else {
        (seq![fence] + render_laws::not_empty(lines)).push(quotes())
    }
}

/// The lines of a block. Those of a quote come behind a greater-than sign, those of
/// an item behind three spaces, with an asterisk or the number before the first.
pub open spec fn block_lines(
    first: Option<Seq<char>>,
    prefix: Seq<char>,
    width: nat,
    block: Block,
) -> Seq<Seq<char>>
    decreases block,
{
    match block {
        Block::Paragraph(spans) => led(
            first,
            prefix,
            seq![span_laws::spans_text(spans)],
            Seq::empty(),
        ),
        Block::Text(s) => led(
            first,
            prefix,
            render_laws::paragraph_lines(s, width as int),
            Seq::empty(),
        ),
        Block::Heading { level, s } => led(
            led_by(first, prefix, Seq::new(level, |i: int| '#')),
            prefix + seq![' ', ' '],
            render_laws::paragraph_lines(s, width - 2),
            seq![' ', '\\'],
        ),
        Block::Title { level, spans } => led(
            led_by(first, prefix, Seq::new(level, |i: int| '#')),
            prefix + seq![' ', ' '],
            seq![span_laws::spans_text(spans)],
            seq![' ', '\\'],
        ),
        Block::Code { lang, texts } => led(
            first,
            prefix,
            code_texts(
                quotes() + (match lang {
                    Some(s) => s,
                    None => Seq::empty(),
                }),
                lines_of(texts),
                width,
            ),
            Seq::empty(),
        ),
        Block::Quote(blocks) => blocks_lines(first, prefix + seq!['>'], width, blocks),
        Block::Bullets(items) => items_lines(first, prefix, width, None, items),
        Block::Numbers { first: number, items } => items_lines(
            first,
            prefix,
            width,
            Some(number),
            items,
        ),
    }
}

/// The lines of blocks, with a line between two of them that holds the prefix alone.
pub open spec fn blocks_lines(
    first: Option<Seq<char>>,
    prefix: Seq<char>,
    width: nat,
    blocks: Seq<Block>,
) -> Seq<Seq<char>>
    decreases blocks,
{
    if blocks.len() == 0 {
        Seq::empty()
    } else if blocks.len() == 1 {
        block_lines(first, prefix, width, blocks[blocks.len() - 1])
    } else {
        blocks_lines(first, prefix, width, blocks.subrange(0, blocks.len() - 1)).push(prefix)
            + block_lines(None, prefix, width, blocks[blocks.len() - 1])
    }
}

/// The lines of an item.
pub open spec fn item_lines(
    first: Option<Seq<char>>,
    prefix: Seq<char>,
    width: nat,
    item: Item,
) -> Seq<Seq<char>>
    decreases item,
{
    if item.text.len() == 0 {
        blocks_lines(first, prefix, width, item.blocks)
    } else {
        let lines = led(
            first,
            prefix,
            render_laws::paragraph_lines(item.text, width as int),
            Seq::empty(),
        );
        if item.blocks.len() == 0 {
            lines
        } else {
            lines.push(prefix) + blocks_lines(None, prefix, width, item.blocks)
        }
    }
}

/// What comes before the item `i`: its number and a full stop, or an asterisk.
pub open spec fn item_mark(number: Option<u64>, i: int) -> Seq<char> {
    match number {
        Some(n) => text::decimal((n + i) as nat) + seq!['.', ' '],
        None => seq!['*', ' '],
    }
}

/// The lines of items, one after the other.
pub open spec fn items_lines(
    first: Option<Seq<char>>,
    prefix: Seq<char>,
    width: nat,
    number: Option<u64>,
    items: Seq<Item>,
) -> Seq<Seq<char>>
    decreases items,
{
    if items.len() == 0 {
        Seq::empty()
    } else {
        let k = items.len() - 1;
        items_lines(first, prefix, width, number, items.subrange(0, k)) + item_lines(
            led_by(
                if k == 0 {
                    first
                } else {
                    None
                },
                prefix,
                item_mark(number, k),
            ),
            prefix + seq![' ', ' ', ' '],
            width,
            items[k],
        )
    }
}

/// The block can be written on lines of this width: a paragraph or a heading with
/// parts in it fits on one line, a heading has room for the backslash, and a list for
/// its numbers.
pub open spec fn is_block(width: nat, block: Block) -> bool
    decreases block,
{
    match block {
        Block::Paragraph(spans) => {
            &&& spans.len() > 0
            &&& span_laws::starts_line(spans)
            &&& text::byte_len(span_laws::spans_text(spans)) < width
        },
        Block::Heading { level: _, s: _ } => width >= 2,
        Block::Title { level: _, spans } => {
            &&& spans.len() > 0
            &&& span_laws::starts_line(spans)
            &&& text::byte_len(span_laws::spans_text(spans)) + 2 < width
        },
        Block::Quote(blocks) => are_blocks(width, blocks),
        Block::Bullets(items) => are_items(width, items),
        Block::Numbers { first, items } => first + items.len() < u64::MAX && are_items(width, items),
        _ => true,
    }
}

/// Each of the blocks can be written.
pub open spec fn are_blocks(width: nat, blocks: Seq<Block>) -> bool
    decreases blocks,
{
    blocks.len() > 0 ==> are_blocks(width, blocks.subrange(0, blocks.len() - 1)) && is_block(
        width,
        blocks[blocks.len() - 1],
    )
}

/// The text of the item is not all white space, and its blocks can be written.
pub open spec fn is_item(width: nat, item: Item) -> bool
    decreases item,
{
    &&& item.text.len() > 0 ==> text::trim(item.text).len() > 0
    &&& are_blocks(width, item.blocks)
}

/// Each of the items can be written.
pub open spec fn are_items(width: nat, items: Seq<Item>) -> bool
    decreases items,
{
    items.len() > 0 ==> are_items(width, items.subrange(0, items.len() - 1)) && is_item(
        width,
        items[items.len() - 1],
    )
}

/// `lines` have been written, and the buffer is empty.
pub open spec fn has_lines(w: World, lines: Seq<Seq<char>>) -> bool {
    &&& w.buffer.len() == 0
    &&& w.out == comment::join(lines)
    &&& w.need_nl == (lines.len() > 0)
}

/// The line state without what comes before the next line only.
pub open spec fn cleared(line: LineView) -> LineView {
    LineView { first_prefix: None, ..line }
}

/// What stands behind each line.
pub open spec fn mark_of(line: LineView) -> Seq<char> {
    if line.explicit_wrap {
        seq![' ', '\\']
    } else {
        Seq::empty()
    }
}

/// Texts as lines of the given line state.
pub open spec fn as_lines(line: LineView, texts: Seq<Seq<char>>) -> Seq<Seq<char>> {
    led(line.first_prefix, line.prefix, texts, mark_of(line))
}

/// Lines written out one after the other.
pub proof fn lemma_emit_all_lines(w: World, l: int, cs: Seq<Seq<char>>, lines: Seq<Seq<char>>)
    requires
        0 <= l < w.lines.len(),
        w.out == comment::join(lines),
        w.need_nl == (lines.len() > 0),
    ensures
        cs.len() == 0 ==> line::emit_all(w, l, cs) == w,
        cs.len() > 0 ==> {
            let v = line::emit_all(w, l, cs);
            &&& has_lines(v, lines + as_lines(w.lines[l], cs))
            &&& v.lines == w.lines.update(l, cleared(w.lines[l]))
        },
    decreases cs.len(),
{
    if cs.len() > 0 {
        let some = cs.drop_last();
        lemma_emit_all_lines(w, l, some, lines);
        let u = line::emit_all(w, l, some);
        let v = line::emit(u, l, cs.last());
        let done = lines + as_lines(w.lines[l], some);
        assert(some.len() == 0 ==> done =~= lines);
        let all = lines + as_lines(w.lines[l], cs);
        assert(all.drop_last() =~= done);
        assert(all.last() =~= line::written(u.lines[l], cs.last()));
        assert(v.out =~= comment::join(all));
        assert(v.lines =~= w.lines.update(l, cleared(w.lines[l])));
    }
}

/// Text is written out over lines.
proof fn lemma_text_lines(w: World, l: int, s: Seq<char>, lines: Seq<Seq<char>>)
    requires
        0 <= l < w.lines.len(),
        has_lines(w, lines),
    ensures
        ({
            let line = w.lines[l];
            let texts = render_laws::paragraph_lines(s, line::width(line));
            let v = line::flushed(line::breakable(w, l, s), l);
            &&& has_lines(v, lines + as_lines(line, texts))
            &&& v.lines == (if texts.len() == 0 {
                w.lines
            } else {
                w.lines.update(l, cleared(line))
            })
        }),
        text::trim(s).len() > 0 ==> render_laws::paragraph_lines(
            s,
            line::width(w.lines[l]),
        ).len() > 0,
{
    let line = w.lines[l];
    let texts = render_laws::paragraph_lines(s, line::width(line));
    assert(w.buffer =~= Seq::<char>::empty());
    let wrapped = line::wrap(w.buffer, text::trim(s), line::width(line));
    let u = line::breakable(w, l, s);
    let v = line::flushed(u, l);
    lemma_emit_all_lines(w, l, wrapped.lines, lines);
    lemma_emit_all_lines(w, l, texts, lines);
    if wrapped.rest.len() == 0 {
        assert(v =~= line::emit_all(w, l, texts));
    } else {
        assert(texts.drop_last() =~= wrapped.lines);
        assert(v =~= line::emit(line::emit_all(w, l, wrapped.lines), l, wrapped.rest));
        assert(v == line::emit_all(w, l, texts));
    }
    if texts.len() == 0 {
        assert(lines + as_lines(line, texts) =~= lines);
    }
}

proof fn lemma_emit_all_twice(w: World, l: int, a: Seq<Seq<char>>, b: Seq<Seq<char>>)
    ensures
        line::emit_all(line::emit_all(w, l, a), l, b) == line::emit_all(w, l, a + b),
    decreases b.len(),
{
    if b.len() == 0 {
        assert(a + b =~= a);
    } else {
        lemma_emit_all_twice(w, l, a, b.drop_last());
        assert((a + b).drop_last() =~= a + b.drop_last());
    }
}

proof fn lemma_emit_one(w: World, l: int, c: Seq<char>)
    ensures
        line::emit_all(w, l, seq![c]) == line::emit(w, l, c),
{
    assert(seq![c].drop_last() =~= Seq::<Seq<char>>::empty());
    reveal_with_fuel(line::emit_all, 2);
}

proof fn lemma_code_twice(w: World, l: int, a: Seq<Seq<char>>, b: Seq<Seq<char>>)
    ensures
        stack::code_lines(stack::code_lines(w, l, a), l, b) == stack::code_lines(w, l, a + b),
    decreases b.len(),
{
    if b.len() == 0 {
        assert(a + b =~= a);
    } else {
        lemma_code_twice(w, l, a, b.drop_last());
        assert((a + b).drop_last() =~= a + b.drop_last());
    }
}

/// The line states but for what comes before the next line only.
spec fn same_lines(v: World, w: World, l: int) -> bool {
    &&& v.lines.len() == w.lines.len()
    &&& cleared(v.lines[l]) == cleared(w.lines[l])
}

proof fn lemma_code_line_states(w: World, l: int, lines: Seq<Seq<char>>)
    requires
        0 <= l < w.lines.len(),
    ensures
        same_lines(stack::code_lines(w, l, lines), w, l),
    decreases lines.len(),
{
    if lines.len() > 0 {
        lemma_code_line_states(w, l, lines.drop_last());
    }
}

/// A part of a document that starts, holds something and ends.
proof fn lemma_enclosed(
    m: Machine,
    tag: TagView,
    a: Machine,
    inner: Seq<EventView>,
    b: Machine,
)
    requires
        render::advance(m, EventView::Start(tag)) == Some(a),
        render::run(a, inner) == Some(b),
    ensures
        render::run(m, span_laws::enclosed(tag, inner)) == render::advance(b, EventView::End),
{
    let events = span_laws::enclosed(tag, inner);
    let rest = events.skip(1);
    render::lemma_run_split(m, events, 1);
    assert(events.take(1) =~= seq![EventView::Start(tag)]);
    span_laws::lemma_run_one(m, EventView::Start(tag));
    assert(rest =~= inner + seq![EventView::End]);
    render::lemma_run_split(a, rest, inner.len() as int);
    assert(rest.take(inner.len() as int) =~= inner);
    assert(rest.skip(inner.len() as int) =~= seq![EventView::End]);
    span_laws::lemma_run_one(b, EventView::End);
}

/// A part that holds blocks.
spec fn holder(l: int, first: bool) -> ElView {
    ElView::Block(BlockView { line: l, first, was_inline: false, end_bound: None })
}

/// A part that holds blocks is open, and `lines` have been written.
spec fn is_open(m: Machine, l: int, first: bool, lines: Seq<Seq<char>>) -> bool {
    &&& m.stack.len() > 0
    &&& m.stack.last() == holder(l, first)
    &&& 0 <= l < m.world.lines.len()
    &&& !m.world.lines[l].explicit_wrap
    &&& has_lines(m.world, lines)
    &&& !first ==> m.world.lines[l].first_prefix is None
}

/// The line states that were there are there still, that at `l` but for what comes
/// before the next line only.
spec fn is_kept_but(v: World, w: World, l: int) -> bool {
    &&& v.lines.len() >= w.lines.len()
    &&& forall|j: int| 0 <= j < w.lines.len() && j != l ==> #[trigger] v.lines[j] == w.lines[j]
    &&& cleared(v.lines[l]) == cleared(w.lines[l])
}

/// What has come of `m`: the innermost part is `top`, and `lines` have been written.
spec fn has_come(
    m: Machine,
    found: Option<Machine>,
    l: int,
    top: ElView,
    lines: Seq<Seq<char>>,
) -> bool {
    &&& found matches Some(n) && {
        &&& n.stack == m.stack.drop_last().push(top)
        &&& has_lines(n.world, lines)
        &&& is_kept_but(n.world, m.world, l)
    }
}

/// The lines before a block: a line with the prefix alone, unless it is the first.
spec fn parted(first: bool, lines: Seq<Seq<char>>, prefix: Seq<char>) -> Seq<Seq<char>> {
    if first {
        lines
    } else {
        lines.push(prefix)
    }
}

/// The line state of a block.
spec fn block_line(tag: TagView, line: LineView) -> LineView {
    match tag {
        TagView::Heading(level) => LineView {
            first_prefix: led_by(line.first_prefix, line.prefix, Seq::new(level, |i: int| '#')),
            prefix: line.prefix + seq![' ', ' '],
            explicit_wrap: true,
            max_width: line.max_width,
        },
        TagView::BlockQuote => LineView { prefix: line.prefix + seq!['>'], ..line },
        _ => line,
    }
}

/// The part that a block is.
spec fn block_el(tag: TagView, id: int) -> ElView {
    match tag {
        TagView::BlockQuote => holder(id, true),
        TagView::List(None) => ElView::BulletList { line: id },
        TagView::List(Some(count)) => ElView::NumberList { count, line: id },
        _ => ElView::Inline(InlineView { end_bound: None, line: id, line_root: true }),
    }
}

proof fn lemma_block_marks()
    ensures
        ">"@ == seq!['>'],
        "  "@ == seq![' ', ' '],
        "   "@ == seq![' ', ' ', ' '],
        "* "@ == seq!['*', ' '],
        ". "@ == seq!['.', ' '],
        "```"@ == quotes(),
{
    reveal_strlit(">");
    reveal_strlit("  ");
    reveal_strlit("   ");
    reveal_strlit("* ");
    reveal_strlit(". ");
    reveal_strlit("```");
    assert(">"@ =~= seq!['>']);
    assert("  "@ =~= seq![' ', ' ']);
    assert("   "@ =~= seq![' ', ' ', ' ']);
    assert("* "@ =~= seq!['*', ' ']);
    assert(". "@ =~= seq!['.', ' ']);
    assert("```"@ =~= quotes());
}

/// A block comes in a part that holds blocks.
proof fn lemma_block_comes(m: Machine, l: int, first: bool, lines: Seq<Seq<char>>)
    requires
        is_open(m, l, first, lines),
    ensures
        ({
            let el = BlockView { line: l, first, was_inline: false, end_bound: None };
            &&& stack::block_ev(el, m.world) matches Some((next, v)) && {
                &&& ElView::Block(next) == holder(l, false)
                &&& has_lines(v, parted(first, lines, m.world.lines[l].prefix))
                &&& v.lines == m.world.lines
            }
        }),
{
    let w = m.world;
    if !first {
        let none = Seq::<char>::empty();
        lemma_emit_all_lines(w, l, seq![none], lines);
        lemma_emit_one(w, l, none);
        assert(text::trim_end(none) =~= none);
        let prefix = w.lines[l].prefix;
        assert(prefix + none + none =~= prefix);
        assert(lines + as_lines(w.lines[l], seq![none]) =~= lines.push(prefix));
        assert(w.lines.update(l, cleared(w.lines[l])) =~= w.lines);
    }
}

/// A block opens that has a line state of its own.
proof fn lemma_opens(m: Machine, l: int, first: bool, lines: Seq<Seq<char>>, tag: TagView) -> (a:
    Machine)
    requires
        is_open(m, l, first, lines),
        tag is Paragraph || tag is Heading || tag is BlockQuote || tag is List,
    ensures
        render::advance(m, EventView::Start(tag)) == Some(a),
        a.stack == m.stack.drop_last().push(holder(l, false)).push(
            block_el(tag, m.world.lines.len() as int),
        ),
        has_lines(a.world, parted(first, lines, m.world.lines[l].prefix)),
        a.world.lines == m.world.lines.update(l, cleared(m.world.lines[l])).push(
            block_line(tag, m.world.lines[l]),
        ),
{
    lemma_block_marks();
    lemma_block_comes(m, l, first, lines);
    reveal(render::advance);
    reveal(stack::step);
    let line = m.world.lines[l];
    assert(line.prefix + Seq::<char>::empty() =~= line.prefix);
    if let TagView::Heading(level) = tag {
        assert(text::repeat('#', level) =~= Seq::new(level, |i: int| '#'));
    }
    render::advance(m, EventView::Start(tag)).unwrap()
}

/// A paragraph or a heading of plain text.
proof fn lemma_plain(
    m: Machine,
    l: int,
    first: bool,
    lines: Seq<Seq<char>>,
    tag: TagView,
    s: Seq<char>,
)
    requires
        is_open(m, l, first, lines),
        tag is Paragraph || tag is Heading,
        tag is Heading ==> m.world.lines[l].max_width >= 2,
    ensures
        ({
            let line = block_line(tag, m.world.lines[l]);
            let found = render::run(m, span_laws::enclosed(tag, seq![EventView::Text(s)]));
            &&& has_come(
                m,
                found,
                l,
                holder(l, false),
                parted(first, lines, m.world.lines[l].prefix) + as_lines(
                    line,
                    render_laws::paragraph_lines(s, line::width(line)),
                ),
            )
            &&& found.unwrap().world.lines[l].first_prefix is None
        }),
{
    let a = lemma_opens(m, l, first, lines, tag);
    let id = m.world.lines.len() as int;
    let done = parted(first, lines, m.world.lines[l].prefix);
    lemma_text_lines(a.world, id, s, done);
    let b = Machine { world: line::breakable(a.world, id, s), stack: a.stack };
    assert(render::advance(a, EventView::Text(s)) == Some(b)) by {
        reveal(render::advance);
        reveal(stack::step);
        assert(a.stack.drop_last().push(a.stack.last()) =~= a.stack);
    }
    span_laws::lemma_run_one(a, EventView::Text(s));
    lemma_enclosed(m, tag, a, seq![EventView::Text(s)], b);
    let n = Machine {
        world: line::flushed(b.world, id),
        stack: m.stack.drop_last().push(holder(l, false)),
    };
    assert(render::advance(b, EventView::End) == Some(n)) by {
        reveal(render::advance);
        reveal(stack::step);
        assert(b.stack.drop_last() =~= n.stack);
    }
}

/// A paragraph or a heading that fits on a line.
proof fn lemma_paragraph(
    m: Machine,
    l: int,
    first: bool,
    lines: Seq<Seq<char>>,
    tag: TagView,
    spans: Seq<Span>,
)
    requires
        is_open(m, l, first, lines),
        spans.len() > 0,
        span_laws::starts_line(spans),
        tag is Paragraph || tag is Heading,
        text::byte_len(span_laws::spans_text(spans)) < line::width(
            block_line(tag, m.world.lines[l]),
        ),
    ensures
        ({
            let found = render::run(m, span_laws::enclosed(tag, span_laws::spans_events(spans)));
            &&& has_come(
                m,
                found,
                l,
                holder(l, false),
                parted(first, lines, m.world.lines[l].prefix) + as_lines(
                    block_line(tag, m.world.lines[l]),
                    seq![span_laws::spans_text(spans)],
                ),
            )
            &&& found.unwrap().world.lines[l].first_prefix is None
        }),
{
    let a = lemma_opens(m, l, first, lines, tag);
    let id = m.world.lines.len() as int;
    let s = span_laws::spans_text(spans);
    let done = parted(first, lines, m.world.lines[l].prefix);
    assert(a.world.buffer + s =~= s);
    span_laws::lemma_spans(a, id, spans);
    let b = Machine { world: span_laws::appended(a.world, s), stack: a.stack };
    lemma_emit_all_lines(b.world, id, seq![s], done);
    lemma_emit_one(b.world, id, s);
    lemma_enclosed(m, tag, a, span_laws::spans_events(spans), b);
    let n = Machine {
        world: line::emit(b.world, id, s),
        stack: m.stack.drop_last().push(holder(l, false)),
    };
    assert(render::advance(b, EventView::End) == Some(n)) by {
        reveal(render::advance);
        reveal(stack::step);
        assert(b.stack.drop_last() =~= n.stack);
    }
}

/// Code behind the fence, which waits in the buffer.
proof fn lemma_code_texts(w: World, l: int, code: Seq<Seq<char>>)
    requires
        0 <= l < w.lines.len(),
        !w.lines[l].explicit_wrap,
        w.buffer.len() > 0,
    ensures
        line::flushed(line::unbreakable(stack::code_lines(w, l, code), l, quotes()), l)
            == line::emit_all(w, l, code_texts(w.buffer, code, w.lines[l].max_width)),
{
    let fence = w.buffer;
    let width = w.lines[l].max_width;
    let none = Seq::<char>::empty();
    if code.len() == 0 {
        lemma_emit_one(w, l, fence + quotes());
        lemma_emit_one(w, l, fence);
        let v = line::emit(w, l, fence);
        lemma_emit_one(v, l, quotes());
        lemma_emit_all_twice(w, l, seq![fence], seq![quotes()]);
        assert(seq![fence] + seq![quotes()] =~= seq![fence, quotes()]);
        assert(none + quotes() =~= quotes());
    } else {
        let one = seq![code[0]];
        let rest = code.drop_first();
        assert(code =~= one + rest);
        lemma_code_twice(w, l, one, rest);
        let u = stack::code_lines(w, l, one);
        assert(one.drop_last() =~= Seq::<Seq<char>>::empty());
        assert(u == line::flushed(line::unbreakable(w, l, code[0]), l)) by {
            reveal_with_fuel(stack::code_lines, 2);
        }
        let fits = text::byte_len(fence) + text::byte_len(code[0]) <= width;
        let before = if fits {
            seq![fence + code[0]]
        } else {
            seq![fence] + render_laws::not_empty(one)
        };
        assert(render_laws::not_empty(one) =~= (if code[0].len() == 0 {
            Seq::<Seq<char>>::empty()
        } else {
            one
        })) by {
            reveal_with_fuel(render_laws::not_empty, 2);
        }
        assert(u == line::emit_all(w, l, before)) by {
            if fits {
                lemma_emit_one(w, l, fence + code[0]);
            } else {
                let v = line::emit(w, l, fence);
                lemma_emit_one(w, l, fence);
                assert(none + code[0] =~= code[0]);
                lemma_emit_one(v, l, code[0]);
                lemma_emit_all_twice(w, l, seq![fence], render_laws::not_empty(one));
                if code[0].len() == 0 {
                    assert(line::unbreakable(w, l, code[0]) =~= v);
                }
            }
        }
        assert(u.buffer.len() == 0);
        render_laws::law_code_unbroken(u, l, rest);
        let more = render_laws::not_empty(rest);
        lemma_emit_all_twice(w, l, before, more);
        let v = stack::code_lines(w, l, code);
        assert(v == line::emit_all(w, l, before + more));
        lemma_emit_one(v, l, quotes());
        lemma_emit_all_twice(w, l, before + more, seq![quotes()]);
        lemma_not_empty_behind(one, rest);
        assert(render_laws::not_empty(code) == render_laws::not_empty(one) + more);
        assert(before + more + seq![quotes()] =~= code_texts(fence, code, width));
        assert(v.buffer + quotes() =~= quotes());
    }
}

proof fn lemma_not_empty_behind(a: Seq<Seq<char>>, b: Seq<Seq<char>>)
    ensures
        render_laws::not_empty(a + b) == render_laws::not_empty(a) + render_laws::not_empty(b),
    decreases b.len(),
{
    if b.len() == 0 {
        assert(a + b =~= a);
        assert(render_laws::not_empty(a) + render_laws::not_empty(b) =~= render_laws::not_empty(a));
    } else {
        lemma_not_empty_behind(a, b.drop_last());
        assert((a + b).drop_last() =~= a + b.drop_last());
        assert(render_laws::not_empty(a + b) =~= render_laws::not_empty(a)
            + render_laws::not_empty(b));
    }
}

/// The texts of a code block.
proof fn lemma_code_events(m: Machine, l: int, texts: Seq<Seq<char>>)
    requires
        m.stack.len() > 0,
        m.stack.last() == (ElView::CodeBlock { line: l }),
        0 <= l < m.world.lines.len(),
        !m.world.lines[l].explicit_wrap,
    ensures
        render::run(m, text_events(texts)) == Some(
            (Machine { world: stack::code_lines(m.world, l, lines_of(texts)), stack: m.stack }),
        ),
    decreases texts.len(),
{
    let events = text_events(texts);
    if texts.len() > 0 {
        let some = texts.drop_last();
        let s = texts.last();
        lemma_code_events(m, l, some);
        assert(events.drop_last() =~= text_events(some));
        lemma_code_twice(m.world, l, lines_of(some), text::text_lines(s));
        lemma_code_line_states(m.world, l, lines_of(some));
        reveal(render::advance);
        reveal(stack::step);
        assert(m.stack.drop_last().push(m.stack.last()) =~= m.stack);
    }
}

#[verifier::rlimit(40)]
proof fn lemma_code(
    m: Machine,
    l: int,
    first: bool,
    lines: Seq<Seq<char>>,
    lang: Option<Seq<char>>,
    texts: Seq<Seq<char>>,
)
    requires
        is_open(m, l, first, lines),
    ensures
        ({
            let line = m.world.lines[l];
            let found = render::run(m, block_events(Block::Code { lang, texts }));
            &&& has_come(
                m,
                found,
                l,
                holder(l, false),
                parted(first, lines, line.prefix) + block_lines(
                    line.first_prefix,
                    line.prefix,
                    line.max_width,
                    Block::Code { lang, texts },
                ),
            )
            &&& found.unwrap().world.lines[l].first_prefix is None
        }),
{
    lemma_block_marks();
    lemma_block_comes(m, l, first, lines);
    let line = m.world.lines[l];
    let tag = TagView::CodeBlock(lang);
    let id = m.world.lines.len() as int;
    let done = parted(first, lines, line.prefix);
    let fence = quotes() + (match lang {
        Some(s) => s,
        None => Seq::empty(),
    });
    assert(stack::fence(lang) =~= fence);
    let el = BlockView { line: l, first, was_inline: false, end_bound: None };
    let v = stack::block_ev(el, m.world).unwrap().1;
    assert(v.buffer + fence =~= fence);
    let a = Machine {
        world: World {
            lines: v.lines.update(l, cleared(line)).push(line),
            buffer: fence,
            ..v
        },
        stack: m.stack.drop_last().push(holder(l, false)).push(ElView::CodeBlock { line: id }),
    };
    assert(render::advance(m, EventView::Start(tag)) == Some(a)) by {
        reveal(render::advance);
        reveal(stack::step);
        assert(line::unbreakable(v, l, fence) =~= World { buffer: fence, ..v });
    }
    let code = lines_of(texts);
    lemma_code_events(a, id, texts);
    let b = Machine { world: stack::code_lines(a.world, id, code), stack: a.stack };
    lemma_code_line_states(a.world, id, code);
    lemma_code_texts(a.world, id, code);
    let cs = code_texts(fence, code, line.max_width);
    lemma_emit_all_lines(a.world, id, cs, done);
    lemma_enclosed(m, tag, a, text_events(texts), b);
    let n = Machine {
        world: line::emit_all(a.world, id, cs),
        stack: m.stack.drop_last().push(holder(l, false)),
    };
    assert(render::advance(b, EventView::End) == Some(n)) by {
        reveal(render::advance);
        reveal(stack::step);
        assert(b.stack.drop_last() =~= n.stack);
    }
}

/// A text in an item waits in the buffer until the item ends or a block comes: as if
/// it had been written out at once.
proof fn lemma_settled(m: Machine, l: int, e: EventView)
    requires
        m.stack.len() > 0,
        m.stack.last() == ElView::Block(
            (BlockView { line: l, first: false, was_inline: true, end_bound: None }),
        ),
        starts_block(e) || e is End,
    ensures
        render::advance(m, e) == render::advance(
            (Machine {
                world: line::flushed(m.world, l),
                stack: m.stack.drop_last().push(holder(l, false)),
            }),
            e,
        ),
{
    reveal(render::advance);
    reveal(stack::step);
    let n = Machine {
        world: line::flushed(m.world, l),
        stack: m.stack.drop_last().push(holder(l, false)),
    };
    assert(n.stack.drop_last() =~= m.stack.drop_last());
}

/// A block starts.
spec fn starts_block(e: EventView) -> bool {
    e matches EventView::Start(tag) && (tag is Paragraph || tag is Heading || tag is BlockQuote
        || tag is CodeBlock || tag is List)
}

proof fn lemma_first_event(blocks: Seq<Block>)
    requires
        blocks.len() > 0,
    ensures
        blocks_events(blocks).len() > 0,
        starts_block(blocks_events(blocks)[0]),
    decreases blocks.len(),
{
    let k = blocks.len() - 1;
    if k > 0 {
        lemma_first_event(blocks.subrange(0, k));
    } else {
        let events = block_events(blocks[0]);
        assert(blocks_events(blocks.subrange(0, 0)).len() == 0);
        assert(starts_block(events[0]));
        assert(blocks_events(blocks) =~= events);
    }
}

/// The lines that have been written once blocks have come.
spec fn after_blocks(
    first: bool,
    lines: Seq<Seq<char>>,
    line: LineView,
    blocks: Seq<Block>,
) -> Seq<Seq<char>> {
    if blocks.len() == 0 {
        lines
    } else {
        parted(first, lines, line.prefix) + blocks_lines(
            line.first_prefix,
            line.prefix,
            line.max_width,
            blocks,
        )
    }
}

/// A block that comes is written behind the lines before it.
#[verifier::rlimit(40)]
proof fn lemma_block(m: Machine, l: int, first: bool, lines: Seq<Seq<char>>, block: Block)
    requires
        is_open(m, l, first, lines),
        is_block(m.world.lines[l].max_width, block),
    ensures
        ({
            let line = m.world.lines[l];
            let found = render::run(m, block_events(block));
            &&& has_come(
                m,
                found,
                l,
                holder(l, false),
                parted(first, lines, line.prefix) + block_lines(
                    line.first_prefix,
                    line.prefix,
                    line.max_width,
                    block,
                ),
            )
            &&& found.unwrap().world.lines[l].first_prefix is None
        }),
    decreases block, 3int,
{
    match block {
        Block::Paragraph(spans) => {
            lemma_paragraph(m, l, first, lines, TagView::Paragraph, spans);
        },
        Block::Text(s) => {
            lemma_plain(m, l, first, lines, TagView::Paragraph, s);
        },
        Block::Heading { level, s } => {
            lemma_plain(m, l, first, lines, TagView::Heading(level), s);
        },
        Block::Title { level, spans } => {
            lemma_paragraph(m, l, first, lines, TagView::Heading(level), spans);
        },
        Block::Code { lang, texts } => {
            lemma_code(m, l, first, lines, lang, texts);
        },
        Block::Quote(blocks) => {
            lemma_quote(m, l, first, lines, blocks);
        },
        Block::Bullets(items) => {
            lemma_list(m, l, first, lines, None, items);
        },
        Block::Numbers { first: number, items } => {
            lemma_list(m, l, first, lines, Some(number), items);
        },
    }
}

#[verifier::rlimit(40)]
proof fn lemma_quote(m: Machine, l: int, first: bool, lines: Seq<Seq<char>>, blocks: Seq<Block>)
    requires
        is_open(m, l, first, lines),
        are_blocks(m.world.lines[l].max_width, blocks),
    ensures
        ({
            let line = m.world.lines[l];
            let found = render::run(
                m,
                span_laws::enclosed(TagView::BlockQuote, blocks_events(blocks)),
            );
            &&& has_come(
                m,
                found,
                l,
                holder(l, false),
                parted(first, lines, line.prefix) + blocks_lines(
                    line.first_prefix,
                    line.prefix + seq!['>'],
                    line.max_width,
                    blocks,
                ),
            )
            &&& found.unwrap().world.lines[l].first_prefix is None
        }),
    decreases blocks, 2int,
{
    let tag = TagView::BlockQuote;
    let line = m.world.lines[l];
    let id = m.world.lines.len() as int;
    let done = parted(first, lines, line.prefix);
    let a = lemma_opens(m, l, first, lines, tag);
    lemma_blocks(a, id, true, done, blocks);
    let b = render::run(a, blocks_events(blocks)).unwrap();
    lemma_enclosed(m, tag, a, blocks_events(blocks), b);
    let n = Machine { world: b.world, stack: m.stack.drop_last().push(holder(l, false)) };
    assert(render::advance(b, EventView::End) == Some(n)) by {
        reveal(render::advance);
        reveal(stack::step);
        assert(b.stack.drop_last() =~= n.stack);
    }
    assert(a.world.lines[l] == cleared(line));
    let all = blocks_lines(line.first_prefix, line.prefix + seq!['>'], line.max_width, blocks);
    assert(after_blocks(true, done, a.world.lines[id], blocks) =~= done + all);
    assert forall|j: int| 0 <= j < m.world.lines.len() && j != l implies #[trigger] n.world.lines[j]
        == m.world.lines[j] by {
        assert(a.world.lines[j] == m.world.lines[j]);
    }
}

/// Blocks that come are written one behind the other, with a line between them.
#[verifier::rlimit(40)]
proof fn lemma_blocks(m: Machine, l: int, first: bool, lines: Seq<Seq<char>>, blocks: Seq<Block>)
    requires
        is_open(m, l, first, lines),
        are_blocks(m.world.lines[l].max_width, blocks),
    ensures
        ({
            let found = render::run(m, blocks_events(blocks));
            &&& has_come(
                m,
                found,
                l,
                holder(l, first && blocks.len() == 0),
                after_blocks(first, lines, m.world.lines[l], blocks),
            )
            &&& blocks.len() > 0 ==> found.unwrap().world.lines[l].first_prefix is None
        }),
    decreases blocks, 1int,
{
    if blocks.len() == 0 {
        assert(m.stack.drop_last().push(m.stack.last()) =~= m.stack);
    } else {
        let k = blocks.len() - 1;
        let some = blocks.subrange(0, k);
        let last = blocks[k];
        let line = m.world.lines[l];
        lemma_blocks(m, l, first, lines, some);
        let half = render::run(m, blocks_events(some)).unwrap();
        let done = after_blocks(first, lines, line, some);
        lemma_block(half, l, first && k == 0, done, last);
        let events = blocks_events(blocks);
        let n = blocks_events(some).len() as int;
        render::lemma_run_split(m, events, n);
        assert(events.take(n) =~= blocks_events(some));
        assert(events.skip(n) =~= block_events(last));
        let end = render::run(m, events).unwrap();
        assert(end.stack =~= m.stack.drop_last().push(holder(l, false)));
        if k == 0 {
            assert(blocks_events(some).len() == 0);
            assert(half == m);
        } else {
            let p = parted(first, lines, line.prefix);
            let a = blocks_lines(line.first_prefix, line.prefix, line.max_width, some);
            let b = block_lines(None, line.prefix, line.max_width, last);
            assert((p + a).push(line.prefix) + b =~= p + (a.push(line.prefix) + b));
        }
        assert forall|j: int| 0 <= j < m.world.lines.len() && j != l implies #[trigger] end.world.lines[j]
            == m.world.lines[j] by {
            assert(half.world.lines[j] == m.world.lines[j]);
        }
    }
}

/// A list, before the item `k`.
spec fn list_el(number: Option<u64>, k: int, l: int) -> ElView {
    match number {
        Some(n) => ElView::NumberList { count: (n + k) as u64, line: l },
        None => ElView::BulletList { line: l },
    }
}

/// The numbers of a list.
spec fn has_numbers(number: Option<u64>, k: int) -> bool {
    number matches Some(n) ==> n + k < u64::MAX
}

#[verifier::rlimit(40)]
proof fn lemma_list(
    m: Machine,
    l: int,
    first: bool,
    lines: Seq<Seq<char>>,
    number: Option<u64>,
    items: Seq<Item>,
)
    requires
        is_open(m, l, first, lines),
        are_items(m.world.lines[l].max_width, items),
        has_numbers(number, items.len() as int),
    ensures
        ({
            let line = m.world.lines[l];
            let found = render::run(
                m,
                span_laws::enclosed(TagView::List(number), items_events(items)),
            );
            &&& has_come(
                m,
                found,
                l,
                holder(l, false),
                parted(first, lines, line.prefix) + items_lines(
                    line.first_prefix,
                    line.prefix,
                    line.max_width,
                    number,
                    items,
                ),
            )
            &&& found.unwrap().world.lines[l].first_prefix is None
        }),
    decreases items, 2int,
{
    let tag = TagView::List(number);
    let line = m.world.lines[l];
    let id = m.world.lines.len() as int;
    let done = parted(first, lines, line.prefix);
    let a = lemma_opens(m, l, first, lines, tag);
    assert(a.stack.last() == list_el(number, 0, id));
    assert(a.world.lines[id] == line);
    lemma_items(a, id, done, number, items);
    let b = render::run(a, items_events(items)).unwrap();
    assert(b.stack.last() == list_el(number, items.len() as int, id));
    lemma_enclosed(m, tag, a, items_events(items), b);
    let n = Machine { world: b.world, stack: m.stack.drop_last().push(holder(l, false)) };
    assert(render::advance(b, EventView::End) == Some(n)) by {
        reveal(render::advance);
        reveal(stack::step);
        assert(b.stack.drop_last() =~= n.stack);
    }
    assert(a.world.lines[l] == cleared(line));
    assert forall|j: int| 0 <= j < m.world.lines.len() && j != l implies #[trigger] n.world.lines[j]
        == m.world.lines[j] by {
        assert(a.world.lines[j] == m.world.lines[j]);
    }
}

/// Items that come are written one behind the other.
#[verifier::rlimit(40)]
proof fn lemma_items(
    m: Machine,
    l: int,
    lines: Seq<Seq<char>>,
    number: Option<u64>,
    items: Seq<Item>,
)
    requires
        m.stack.len() > 0,
        m.stack.last() == list_el(number, 0, l),
        0 <= l < m.world.lines.len(),
        !m.world.lines[l].explicit_wrap,
        has_lines(m.world, lines),
        are_items(m.world.lines[l].max_width, items),
        has_numbers(number, items.len() as int),
    ensures
        ({
            let line = m.world.lines[l];
            let found = render::run(m, items_events(items));
            &&& has_come(
                m,
                found,
                l,
                list_el(number, items.len() as int, l),
                lines + items_lines(
                    line.first_prefix,
                    line.prefix,
                    line.max_width,
                    number,
                    items,
                ),
            )
            &&& items.len() == 0 ==> found == Some(m)
            &&& items.len() > 0 ==> found.unwrap().world.lines[l].first_prefix is None
        }),
    decreases items, 1int,
{
    let line = m.world.lines[l];
    if items.len() == 0 {
        assert(m.stack.drop_last().push(m.stack.last()) =~= m.stack);
        assert(lines + items_lines(line.first_prefix, line.prefix, line.max_width, number, items)
            =~= lines);
    } else {
        let k = items.len() - 1;
        let some = items.subrange(0, k);
        let last = items[k];
        lemma_items(m, l, lines, number, some);
        let half = render::run(m, items_events(some)).unwrap();
        let before = items_lines(line.first_prefix, line.prefix, line.max_width, number, some);
        lemma_item(half, l, lines + before, number, k, last);
        let events = items_events(items);
        let n = items_events(some).len() as int;
        render::lemma_run_split(m, events, n);
        assert(events.take(n) =~= items_events(some));
        assert(events.skip(n) =~= item_events(last));
        let end = render::run(m, events).unwrap();
        assert(end.stack =~= m.stack.drop_last().push(list_el(number, k + 1, l)));
        let hl = half.world.lines[l];
        let b = item_lines(
            led_by(hl.first_prefix, line.prefix, item_mark(number, k)),
            line.prefix + seq![' ', ' ', ' '],
            line.max_width,
            last,
        );
        assert((lines + before) + b =~= lines + (before + b));
        assert forall|j: int| 0 <= j < m.world.lines.len() && j != l implies #[trigger] end.world.lines[j]
            == m.world.lines[j] by {
            assert(half.world.lines[j] == m.world.lines[j]);
        }
    }
}

/// The text of an item is written out once something follows it.
#[verifier::rlimit(40)]
proof fn lemma_item_content(m: Machine, l: int, lines: Seq<Seq<char>>, item: Item) -> (b: Machine)
    requires
        is_open(m, l, true, lines),
        is_item(m.world.lines[l].max_width, item),
    ensures
        ({
            let line = m.world.lines[l];
            let events = (if item.text.len() == 0 {
                Seq::empty()
            } else {
                seq![EventView::Text(item.text)]
            }) + blocks_events(item.blocks);
            &&& render::run(m, events) matches Some(c) && render::advance(c, EventView::End) == Some(b)
            &&& b.stack == m.stack.drop_last()
            &&& has_lines(
                b.world,
                lines + item_lines(line.first_prefix, line.prefix, line.max_width, item),
            )
            &&& is_kept_but(b.world, m.world, l)
        }),
    decreases item, 0int,
{
    let line = m.world.lines[l];
    let inner = blocks_events(item.blocks);
    if item.text.len() == 0 {
        lemma_blocks(m, l, true, lines, item.blocks);
        assert(Seq::empty() + inner =~= inner);
        let c = render::run(m, inner).unwrap();
        let b = Machine { world: c.world, stack: m.stack.drop_last() };
        assert(render::advance(c, EventView::End) == Some(b)) by {
            reveal(render::advance);
            reveal(stack::step);
            assert(c.stack.drop_last() =~= m.stack.drop_last());
        }
        assert(after_blocks(true, lines, line, item.blocks) =~= lines + blocks_lines(
            line.first_prefix,
            line.prefix,
            line.max_width,
            item.blocks,
        ));
        b
    } else {
        let e = EventView::Text(item.text);
        let events = seq![e] + inner;
        let texts = render_laws::paragraph_lines(item.text, line.max_width as int);
        let done = lines + as_lines(line, texts);
        lemma_text_lines(m.world, l, item.text, lines);
        let waiting = Machine {
            world: line::breakable(m.world, l, item.text),
            stack: m.stack.drop_last().push(
                ElView::Block(
                    BlockView { line: l, first: false, was_inline: true, end_bound: None },
                ),
            ),
        };
        let settled = Machine {
            world: line::flushed(waiting.world, l),
            stack: m.stack.drop_last().push(holder(l, false)),
        };
        assert(waiting.stack.drop_last() =~= m.stack.drop_last());
        assert(render::advance(m, e) == Some(waiting)) by {
            reveal(render::advance);
            reveal(stack::step);
        }
        render::lemma_run_split(m, events, 1);
        assert(events.take(1) =~= seq![e]);
        assert(events.skip(1) =~= inner);
        span_laws::lemma_run_one(m, e);
        assert(settled.world.lines == m.world.lines.update(l, cleared(line)));
        if item.blocks.len() == 0 {
            lemma_settled(waiting, l, EventView::End);
            assert(inner.len() == 0);
            let b = Machine { world: settled.world, stack: m.stack.drop_last() };
            assert(render::advance(settled, EventView::End) == Some(b)) by {
                reveal(render::advance);
                reveal(stack::step);
                assert(settled.stack.drop_last() =~= m.stack.drop_last());
            }
            b
        } else {
            lemma_first_event(item.blocks);
            lemma_settled(waiting, l, inner[0]);
            render::lemma_run_split(waiting, inner, 1);
            render::lemma_run_split(settled, inner, 1);
            assert(inner.take(1) =~= seq![inner[0]]);
            span_laws::lemma_run_one(waiting, inner[0]);
            span_laws::lemma_run_one(settled, inner[0]);
            lemma_blocks(settled, l, false, done, item.blocks);
            let c = render::run(settled, inner).unwrap();
            let b = Machine { world: c.world, stack: m.stack.drop_last() };
            assert(render::advance(c, EventView::End) == Some(b)) by {
                reveal(render::advance);
                reveal(stack::step);
                assert(c.stack.drop_last() =~= m.stack.drop_last());
            }
            let more = blocks_lines(None, line.prefix, line.max_width, item.blocks);
            assert(done.push(line.prefix) + more =~= lines + (as_lines(line, texts).push(
                line.prefix,
            ) + more));
            assert forall|j: int| 0 <= j < m.world.lines.len() && j != l implies #[trigger] b.world.lines[j]
                == m.world.lines[j] by {
                assert(settled.world.lines[j] == m.world.lines[j]);
            }
            b
        }
    }
}

/// An item that comes is written behind its mark.
#[verifier::rlimit(40)]
proof fn lemma_item(
    m: Machine,
    l: int,
    lines: Seq<Seq<char>>,
    number: Option<u64>,
    k: int,
    item: Item,
)
    requires
        m.stack.len() > 0,
        m.stack.last() == list_el(number, k, l),
        k >= 0,
        0 <= l < m.world.lines.len(),
        !m.world.lines[l].explicit_wrap,
        has_lines(m.world, lines),
        is_item(m.world.lines[l].max_width, item),
        has_numbers(number, k + 1),
    ensures
        ({
            let line = m.world.lines[l];
            let found = render::run(m, item_events(item));
            &&& has_come(
                m,
                found,
                l,
                list_el(number, k + 1, l),
                lines + item_lines(
                    led_by(line.first_prefix, line.prefix, item_mark(number, k)),
                    line.prefix + seq![' ', ' ', ' '],
                    line.max_width,
                    item,
                ),
            )
            &&& found.unwrap().world.lines[l].first_prefix is None
        }),
    decreases item, 1int,
{
    lemma_block_marks();
    let line = m.world.lines[l];
    let id = m.world.lines.len() as int;
    let inner = LineView {
        first_prefix: led_by(line.first_prefix, line.prefix, item_mark(number, k)),
        prefix: line.prefix + seq![' ', ' ', ' '],
        ..line
    };
    let a = Machine {
        world: World {
            lines: m.world.lines.update(l, cleared(line)).push(inner),
            ..m.world
        },
        stack: m.stack.drop_last().push(list_el(number, k + 1, l)).push(holder(id, true)),
    };
    assert(render::advance(m, EventView::Start(TagView::Item)) == Some(a)) by {
        reveal(render::advance);
        reveal(stack::step);
    }
    let b = lemma_item_content(a, id, lines, item);
    let events = (if item.text.len() == 0 {
        Seq::empty()
    } else {
        seq![EventView::Text(item.text)]
    }) + blocks_events(item.blocks);
    let c = render::run(a, events).unwrap();
    lemma_enclosed(m, TagView::Item, a, events, c);
    assert(b.stack =~= m.stack.drop_last().push(list_el(number, k + 1, l)));
    assert(a.world.lines[l] == cleared(line));
    assert forall|j: int| 0 <= j < m.world.lines.len() && j != l implies #[trigger] b.world.lines[j]
        == m.world.lines[j] by {
        assert(a.world.lines[j] == m.world.lines[j]);
    }
}

/// A document is written as its blocks say, line by line: paragraphs broken over
/// lines, headings behind number signs and with a backslash at the end of each line,
/// code between fences, quotes behind a greater-than sign, and the items of lists
/// behind an asterisk or a number, each block behind what comes before the lines of
/// those that it stands in, and with a line between two blocks.
pub proof fn law_document(prefix: Seq<char>, max_width: nat, blocks: Seq<Block>)
    requires
        are_blocks(max_width, blocks),
    ensures
        render::rendered(prefix, max_width, blocks_events(blocks)) == Some(
            comment::join(blocks_lines(None, prefix, max_width, blocks)),
        ),
{
    let m = render::start(prefix, max_width);
    let none = Seq::<Seq<char>>::empty();
    lemma_blocks(m, 0, true, none, blocks);
    assert(after_blocks(true, none, m.world.lines[0], blocks) =~= blocks_lines(
        None,
        prefix,
        max_width,
        blocks,
    ));
}

proof fn lemma_not_empty_holds(lines: Seq<Seq<char>>, i: int)
    requires
        0 <= i < lines.len(),
        lines[i].len() > 0,
    ensures
        render_laws::not_empty(lines).contains(lines[i]),
    decreases lines.len(),
{
    let all = render_laws::not_empty(lines);
    let k = lines.len() - 1;
    if i == k {
        assert(all[all.len() - 1] == lines[i]);
    } else {
        let some = render_laws::not_empty(lines.drop_last());
        lemma_not_empty_holds(lines.drop_last(), i);
        let j = choose|j: int| 0 <= j < some.len() && some[j] == lines.drop_last()[i];
        assert(all[j] == lines[i]);
    }
}

/// A code block of whole lines is written line by line: the fence with the language,
/// each line that is not empty behind the prefix as it stands in the document, with
/// the white space it starts with, and the fence that closes it. The first line
/// stands behind the fence if both fit on a line. White space at the end of a line
/// is dropped.
pub proof fn law_code_written(
    prefix: Seq<char>,
    max_width: nat,
    lang: Seq<char>,
    lines: Seq<text_laws::EndedLine>,
)
    requires
        lines.len() > 0,
        forall|i: int| 0 <= i < lines.len() ==> text_laws::is_ended_line(#[trigger] lines[i]),
    ensures
        ({
            let fence = seq!['`', '`', '`'] + lang;
            let code = lines.map_values(|l: text_laws::EndedLine| l.line);
            let fits = text::byte_len(fence) + text::byte_len(code[0]) <= max_width;
            let more = render_laws::not_empty(
                if fits {
                    code.drop_first()
                } else {
                    code
                },
            );
            let all = seq![
                if fits {
                    fence + code[0]
                } else {
                    fence
                },
            ] + more + seq![seq!['`', '`', '`']];
            &&& render::rendered(
                prefix,
                max_width,
                seq![
                    EventView::Start(TagView::CodeBlock(Some(lang))),
                    EventView::Text(text_laws::ended_text(lines)),
                    EventView::End,
                ],
            ) == Some(comment::join(all.map_values(|c: Seq<char>| prefix + text::trim_end(c))))
            &&& forall|i: int|
                0 < i < lines.len() && lines[i].line.len() > 0 ==> more.contains(
                    (#[trigger] lines[i]).line,
                )
        }),
{
    let s = text_laws::ended_text(lines);
    let none = Seq::<char>::empty();
    let code = lines.map_values(|l: text_laws::EndedLine| l.line);
    let fence = quotes() + lang;
    let texts = seq![s];
    text_laws::law_lines(lines, none);
    assert(s + none =~= s);
    assert(code + Seq::<Seq<char>>::empty() =~= code);
    assert(texts.drop_last() =~= Seq::<Seq<char>>::empty());
    assert(lines_of(texts) =~= code) by {
        reveal_with_fuel(lines_of, 2);
    }
    let block = Block::Code { lang: Some(lang), texts };
    let blocks = seq![block];
    assert(blocks.subrange(0, 0) =~= Seq::<Block>::empty());
    reveal_with_fuel(are_blocks, 2);
    reveal_with_fuel(blocks_events, 2);
    law_document(prefix, max_width, blocks);
    let events = seq![
        EventView::Start(TagView::CodeBlock(Some(lang))),
        EventView::Text(s),
        EventView::End,
    ];
    assert(text_events(texts) =~= seq![EventView::Text(s)]);
    assert(blocks_events(blocks) =~= events);
    let fits = text::byte_len(fence) + text::byte_len(code[0]) <= max_width;
    let rest = if fits {
        code.drop_first()
    } else {
        code
    };
    let more = render_laws::not_empty(rest);
    let all = seq![
        if fits {
            fence + code[0]
        } else {
            fence
        },
    ] + more + seq![quotes()];
    assert(all =~= code_texts(fence, code, max_width));
    assert(blocks_lines(None, prefix, max_width, blocks) == block_lines(
        None,
        prefix,
        max_width,
        block,
    ));
    assert(led(None, prefix, all, none) =~= all.map_values(
        |c: Seq<char>| prefix + text::trim_end(c),
    ));
    assert forall|i: int| 0 < i < lines.len() && lines[i].line.len() > 0 implies more.contains(
        (#[trigger] lines[i]).line,
    ) by {
        let j = if fits {
            i - 1
        } else {
            i
        };
        assert(rest[j] == code[i]);
        lemma_not_empty_holds(rest, j);
    }
}

} // verus!
