//! The parts of a document that are open while it is written, innermost last,
//! and what each does with an event.
use vstd::prelude::*;
use vstd::string::*;
use crate::line::{self, LineState, State, World};
use crate::markdown::{CodeBlockKind, Event, EventView, Tag, TagView};
use crate::page;
use crate::text;

verus! {

/// A part of a line, or the content of a paragraph or a heading.
pub struct StackInline {
    /// What is written at the end.
    pub end_bound: Option<String>,
    pub line: LineState,
    /// The line ends with this part.
    pub line_root: bool,
}

/// What a [`StackInline`] is made of.
pub struct StackInlineArgs {
    pub start_bound: Option<String>,
    pub end_bound: Option<String>,
    pub line_state: LineState,
    pub line_root: bool,
}

/// A part that holds blocks: the document, a quote or a list item.
pub struct StackBlock {
    pub line: LineState,
    /// Nothing has come yet.
    pub first: bool,
    /// The last that came was part of a line.
    pub was_inline: bool,
    pub end_bound: Option<String>,
}

/// What a [`StackBlock`] is made of.
pub struct StackBlockArgs {
    pub line: LineState,
    pub start_bound: Option<String>,
    pub end_bound: Option<String>,
}

/// An ordered list.
pub struct StackNumberList {
    /// The number of the next item.
    pub count: u64,
    pub line: LineState,
}

/// A list that is not ordered.
pub struct StackBulletList {
    pub line: LineState,
}

/// A code block.
pub struct StackCodeBlock {
    pub line: LineState,
}

/// A part of the document.
pub enum StackEl {
    Inline(StackInline),
    Block(StackBlock),
    NumberList(StackNumberList),
    BulletList(StackBulletList),
    CodeBlock(StackCodeBlock),
}

/// What an event does to the parts that are open.
pub enum StackRes {
    /// A part opens.
    Push(StackEl),
    /// They stay.
    Keep,
    /// The innermost part closes.
    Pop,
}

/// The model of a [`StackInline`].
pub struct InlineView {
    pub end_bound: Option<Seq<char>>,
    pub line: int,
    pub line_root: bool,
}

/// The model of a [`StackBlock`].
pub struct BlockView {
    pub line: int,
    pub first: bool,
    pub was_inline: bool,
    pub end_bound: Option<Seq<char>>,
}

/// The model of a [`StackEl`].
pub enum ElView {
    Inline(InlineView),
    Block(BlockView),
    NumberList { count: u64, line: int },
    BulletList { line: int },
    CodeBlock { line: int },
}

/// The model of a [`StackRes`].
pub enum ResView {
    Push(ElView),
    Keep,
    Pop,
}

impl View for StackInline {
    type V = InlineView;

    open spec fn view(&self) -> InlineView {
        InlineView {
            end_bound: line::text_view(self.end_bound),
            line: self.line.id as int,
            line_root: self.line_root,
        }
    }
}

impl View for StackBlock {
    type V = BlockView;

    open spec fn view(&self) -> BlockView {
        BlockView {
            line: self.line.id as int,
            first: self.first,
            was_inline: self.was_inline,
            end_bound: line::text_view(self.end_bound),
        }
    }
}

impl View for StackEl {
    type V = ElView;

    open spec fn view(&self) -> ElView {
        match *self {
            StackEl::Inline(el) => ElView::Inline(el@),
            StackEl::Block(el) => ElView::Block(el@),
            StackEl::NumberList(el) => ElView::NumberList {
                count: el.count,
                line: el.line.id as int,
            },
            StackEl::BulletList(el) => ElView::BulletList { line: el.line.id as int },
            StackEl::CodeBlock(el) => ElView::CodeBlock { line: el.line.id as int },
        }
    }
}

impl View for StackRes {
    type V = ResView;

    open spec fn view(&self) -> ResView {
        match *self {
            StackRes::Push(el) => ResView::Push(el@),
            StackRes::Keep => ResView::Keep,
            StackRes::Pop => ResView::Pop,
        }
    }
}

/// The line state that a part writes to.
pub open spec fn line_of(el: ElView) -> int {
    match el {
        ElView::Inline(el) => el.line,
        ElView::Block(el) => el.line,
        ElView::NumberList { count: _, line } => line,
        ElView::BulletList { line } => line,
        ElView::CodeBlock { line } => line,
    }
}

/// The line state that a part writes to is one that there is.
pub open spec fn is_valid(el: ElView, w: World) -> bool {
    0 <= line_of(el) < w.lines.len()
}

/// A part that opens is a valid one.
pub open spec fn res_valid(res: ResView, w: World) -> bool {
    match res {
        ResView::Push(el) => is_valid(el, w),
        _ => true,
    }
}

/// Something can be written to the line state.
pub open spec fn writable(w: World, l: int) -> bool {
    line::is_writable(w.lines[l])
}

/// Writes a bound, if there is one.
pub open spec fn bound_written(w: World, l: int, bound: Option<Seq<char>>) -> Option<World> {
    match bound {
        None => Some(w),
        Some(b) => if writable(w, l) {
            Some(line::unbreakable(w, l, b))
        } else {
            None
        },
    }
}

/// An image: its address, and its title where it has one.
pub open spec fn image(w: World, l: int, url: Seq<char>, title: Seq<char>) -> World {
    let opened = line::unbreakable(w, l, "![]("@ + url);
    if title.len() == 0 {
        line::unbreakable(opened, l, ")"@)
    } else {
        let quoted = line::breakable(line::unbreakable(opened, l, " \""@), l, title);
        line::unbreakable(quoted, l, "\")"@)
    }
}

/// Opens a part of a line between two bounds.
pub open spec fn open_inline(
    w: World,
    l: int,
    start: Seq<char>,
    end: Seq<char>,
    root: bool,
) -> Option<(World, ResView)> {
    if writable(w, l) {
        Some(
            (
                line::unbreakable(w, l, start),
                ResView::Push(
                    ElView::Inline(
                        InlineView { end_bound: Some(end), line: l, line_root: root },
                    ),
                ),
            ),
        )
    } else {
        None
    }
}

/// What closes a link.
pub open spec fn link_end(url: Seq<char>) -> Seq<char> {
    "]("@ + url + ")"@
}

/// Code within a line.
pub open spec fn code_span(s: Seq<char>) -> Seq<char> {
    "`"@ + s + "`"@
}

/// Opens a part of a line, if the tag is of one that has bounds.
pub open spec fn inline_start(w: World, l: int, tag: TagView, root: bool) -> Option<
    (World, ResView),
> {
    match tag {
        TagView::Emphasis => open_inline(w, l, "_"@, "_"@, root),
        TagView::Strong => open_inline(w, l, "**"@, "**"@, root),
        TagView::Strikethrough => open_inline(w, l, "~"@, "~"@, root),
        TagView::Link { url, title: _ } => open_inline(w, l, "["@, link_end(url), root),
        _ => None,
    }
}

/// What a part of a line does where a part starts within it.
pub open spec fn inline_tag(w: World, l: int, tag: TagView) -> Option<(World, ResView)> {
    match tag {
        TagView::Image { url, title } => if writable(w, l) {
            Some((image(w, l, url, title), ResView::Keep))
        } else {
            None
        },
        _ => inline_start(w, l, tag, false),
    }
}

/// What a part of a line does with an event. There is no result where the event
/// cannot come in such a part, or cannot be written.
pub open spec fn inline_step(el: InlineView, w: World, e: EventView) -> Option<(World, ResView)> {
    let l = el.line;
    match e {
        EventView::End => match bound_written(w, l, el.end_bound) {
            None => None,
            Some(v) => Some(
                (
                    if el.line_root {
                        line::flushed(v, l)
                    } else {
                        v
                    },
                    ResView::Pop,
                ),
            ),
        },
        EventView::Start(tag) => inline_tag(w, l, tag),
        EventView::Text(s) => if writable(w, l) {
            Some((line::breakable(w, l, s), ResView::Keep))
        } else {
            None
        },
        EventView::Code(s) => if writable(w, l) {
            Some((line::unbreakable(w, l, code_span(s)), ResView::Keep))
        } else {
            None
        },
        EventView::SoftBreak | EventView::HardBreak => if writable(w, l) {
            Some((line::whitespace(w, l, " "@), ResView::Keep))
        } else {
            None
        },
        _ => None,
    }
}

/// A part of a line has come.
pub open spec fn inline_ev(el: BlockView) -> BlockView {
    BlockView { first: false, was_inline: true, ..el }
}

/// A block comes: the line before it ends, and an empty line is written unless
/// it is the first. There is no result where the line before it has not ended.
pub open spec fn block_ev(el: BlockView, w: World) -> Option<(BlockView, World)> {
    let v = if el.was_inline {
        line::flushed(w, el.line)
    } else {
        w
    };
    let next = BlockView { first: false, was_inline: false, ..el };
    if el.first {
        Some((next, v))
    } else if v.buffer.len() == 0 {
        Some((next, line::emit(v, el.line, Seq::empty())))
    } else {
        None
    }
}

/// A part that holds blocks, with nothing in it yet.
pub open spec fn open_block(line: int) -> ResView {
    ResView::Push(
        ElView::Block(BlockView { line, first: true, was_inline: false, end_bound: None }),
    )
}

/// The content of a paragraph or a heading.
pub open spec fn open_content(line: int) -> ResView {
    ResView::Push(ElView::Inline(InlineView { end_bound: None, line, line_root: true }))
}

/// What opens a code block: the fence, and the language where there is one.
pub open spec fn fence(lang: Option<Seq<char>>) -> Seq<char> {
    match lang {
        Some(s) => "```"@ + s,
        None => "```"@,
    }
}

/// Opens a block, if the tag is of one, with a line state of its own.
pub open spec fn block_open(w: World, l: int, tag: TagView) -> Option<(World, ResView)> {
    let line = w.lines[l];
    let id = w.lines.len() as int;
    match tag {
        TagView::Paragraph => Some(
            (
                line::with_line(w, l, line::indented(line, None, Seq::empty(), false)),
                open_content(id),
            ),
        ),
        TagView::Heading(level) => Some(
            (
                line::with_line(
                    w,
                    l,
                    line::indented(line, Some(text::repeat('#', level)), "  "@, true),
                ),
                open_content(id),
            ),
        ),
        TagView::BlockQuote => Some(
            (line::with_line(w, l, line::indented(line, None, ">"@, false)), open_block(id)),
        ),
        TagView::CodeBlock(lang) => if writable(w, l) {
            let v = line::unbreakable(w, l, fence(lang));
            Some(
                (
                    line::with_line(v, l, v.lines[l]),
                    ResView::Push(ElView::CodeBlock { line: id }),
                ),
            )
        } else {
            None
        },
        TagView::List(Some(count)) => Some(
            (
                line::with_line(w, l, line),
                ResView::Push(ElView::NumberList { count, line: id }),
            ),
        ),
        TagView::List(None) => Some(
            (line::with_line(w, l, line), ResView::Push(ElView::BulletList { line: id })),
        ),
        _ => None,
    }
}

/// What a part that holds blocks does where a part starts within it. Of a link
/// only the opening bracket is written, and no part opens.
pub open spec fn block_tag(el: BlockView, w: World, tag: TagView) -> Option<
    (BlockView, World, ResView),
> {
    let l = el.line;
    match tag {
        TagView::Link { url: _, title: _ } => if writable(w, l) {
            Some(
                (
                    BlockView { was_inline: true, ..el },
                    line::unbreakable(w, l, "["@),
                    ResView::Keep,
                ),
            )
        } else {
            None
        },
        TagView::Image { url, title } => if writable(w, l) {
            Some((inline_ev(el), image(w, l, url, title), ResView::Keep))
        } else {
            None
        },
        TagView::Emphasis | TagView::Strong | TagView::Strikethrough => match inline_start(
            w,
            l,
            tag,
            true,
        ) {
            Some((v, res)) => Some((inline_ev(el), v, res)),
            None => None,
        },
        _ => match block_ev(el, w) {
            Some((next, v)) => match block_open(v, l, tag) {
                Some((u, res)) => Some((next, u, res)),
                None => None,
            },
            None => None,
        },
    }
}

/// What a part that holds blocks does with an event. There is no result where
/// the event cannot come in such a part, or cannot be written.
pub open spec fn block_step(el: BlockView, w: World, e: EventView) -> Option<
    (BlockView, World, ResView),
> {
    let l = el.line;
    match e {
        EventView::Start(tag) => block_tag(el, w, tag),
        EventView::End => {
            let v = if el.was_inline {
                line::flushed(w, l)
            } else {
                w
            };
            match el.end_bound {
                None => Some((el, v, ResView::Pop)),
                Some(b) => if writable(v, l) {
                    Some((el, line::flushed(line::unbreakable(v, l, b), l), ResView::Pop))
                } else {
                    None
                },
            }
        },
        EventView::Text(s) => if writable(w, l) {
            Some((inline_ev(el), line::breakable(w, l, s), ResView::Keep))
        } else {
            None
        },
        EventView::Code(s) => if writable(w, l) {
            Some((inline_ev(el), line::unbreakable(w, l, code_span(s)), ResView::Keep))
        } else {
            None
        },
        EventView::SoftBreak => Some((el, w, ResView::Keep)),
        _ => None,
    }
}

/// Opens a list item whose first line starts with `mark`.
pub open spec fn open_item(w: World, l: int, mark: Seq<char>) -> (World, ResView) {
    (
        line::with_line(w, l, line::indented(w.lines[l], Some(mark), "   "@, false)),
        open_block(w.lines.len() as int),
    )
}

/// What a list does with an event, where `mark` comes before its next item: only
/// items come in it.
pub open spec fn list_step(l: int, mark: Seq<char>, w: World, e: EventView) -> Option<
    (World, ResView),
> {
    match e {
        EventView::Start(TagView::Item) => Some(open_item(w, l, mark)),
        EventView::End => Some((w, ResView::Pop)),
        _ => None,
    }
}

/// What comes before an item of an ordered list.
pub open spec fn number_mark(count: u64) -> Seq<char> {
    text::decimal(count as nat) + ". "@
}

/// Writes the lines of a code block, each on a line of its own as far as it does
/// not fit behind what the buffer holds.
pub open spec fn code_lines(w: World, l: int, lines: Seq<Seq<char>>) -> World
    decreases lines.len(),
{
    if lines.len() == 0 {
        w
    } else {
        line::flushed(
            line::unbreakable(code_lines(w, l, lines.drop_last()), l, lines.last()),
            l,
        )
    }
}

/// What a code block does with an event: only text comes in it.
pub open spec fn code_step(l: int, w: World, e: EventView) -> Option<(World, ResView)> {
    match e {
        EventView::Text(s) => if writable(w, l) || text::text_lines(s).len() == 0 {
            Some((code_lines(w, l, text::text_lines(s)), ResView::Keep))
        } else {
            None
        },
        EventView::End => if writable(w, l) {
            Some((line::flushed(line::unbreakable(w, l, "```"@), l), ResView::Pop))
        } else {
            None
        },
        _ => None,
    }
}

/// What a part does with an event: what becomes of it, what is written, and what
/// becomes of the parts that are open. There is no result where the event cannot
/// come in such a part, or cannot be written.
#[verifier::opaque]
pub open spec fn step(el: ElView, w: World, e: EventView) -> Option<(ElView, World, ResView)> {
    match el {
        ElView::Inline(inline) => match inline_step(inline, w, e) {
            Some((v, res)) => Some((el, v, res)),
            None => None,
        },
        ElView::Block(block) => match block_step(block, w, e) {
            Some((next, v, res)) => Some((ElView::Block(next), v, res)),
            None => None,
        },
        ElView::NumberList { count, line } => if count == u64::MAX {
            None
        } else {
            match list_step(line, number_mark(count), w, e) {
                Some((v, res)) => Some(
                    (ElView::NumberList { count: (count + 1) as u64, line }, v, res),
                ),
                None => None,
            }
        },
        ElView::BulletList { line } => match list_step(line, "* "@, w, e) {
            Some((v, res)) => Some((el, v, res)),
            None => None,
        },
        ElView::CodeBlock { line } => match code_step(line, w, e) {
            Some((v, res)) => Some((el, v, res)),
            None => None,
        },
    }
}

/// What a handler gives back and leaves behind, against what it is to give. Where
/// it is to give nothing, it leaves behind what there was, `before`.
pub open spec fn agrees(
    r: Option<StackRes>,
    state: State,
    out: Seq<char>,
    before: World,
    expected: Option<(World, ResView)>,
) -> bool {
    match expected {
        None => r is None && line::world(state, out) == before,
        Some((w, res)) => r matches Some(given) && given@ == res && line::world(state, out) == w,
    }
}

/// Writes an image.
pub fn write_image(state: &mut State, out: &mut String, line: &LineState, url: &str, title: &str)
    requires
        line.valid(*old(state)),
        writable(old(state)@, line.id as int),
    ensures
        line::world(*final(state), final(out)@) == image(
            line::world(*old(state), old(out)@),
            line.id as int,
            url@,
            title@,
        ),
{
    line.write_unbreakable(state, out, String::from_str("![](").concat(url).as_str());
    if title.is_empty() {
        line.write_unbreakable(state, out, ")");
    } else {
        line.write_unbreakable(state, out, " \"");
        proof {
            let w = line::world(*state, out@);
            let l = line.id as int;
            page::lemma_breakable_follows(w, l, title@);
            page::lemma_follows_line(line::breakable(w, l, title@), w, l);
        }
        line.write_breakable(state, out, title);
        line.write_unbreakable(state, out, "\")");
    }
}

impl StackInline {
    /// Opens a part of a line, with what is written at its start.
    pub fn new(state: &mut State, out: &mut String, args: StackInlineArgs) -> (r: StackEl)
        requires
            args.line_state.valid(*old(state)),
            args.start_bound is Some ==> writable(old(state)@, args.line_state.id as int),
        ensures
            r@ == ElView::Inline(
                (InlineView {
                    end_bound: line::text_view(args.end_bound),
                    line: args.line_state.id as int,
                    line_root: args.line_root,
                }),
            ),
            Some(line::world(*final(state), final(out)@)) == bound_written(
                line::world(*old(state), old(out)@),
                args.line_state.id as int,
                line::text_view(args.start_bound),
            ),
    {
        if let Some(b) = args.start_bound {
            args.line_state.write_unbreakable(state, out, b.as_str());
        }
        StackEl::Inline(
            StackInline {
                end_bound: args.end_bound,
                line: args.line_state,
                line_root: args.line_root,
            },
        )
    }
}

/// Opens emphasis.
pub fn push_emphasis(state: &mut State, out: &mut String, line: LineState, line_root: bool) -> (r:
    StackRes)
    requires
        line.valid(*old(state)),
        writable(old(state)@, line.id as int),
    ensures
        agrees(
            Some(r),
            *final(state),
            final(out)@,
            line::world(*old(state), old(out)@),
            inline_start(
                line::world(*old(state), old(out)@),
                line.id as int,
                TagView::Emphasis,
                line_root,
            ),
        ),
{
    StackRes::Push(
        StackInline::new(
            state,
            out,
            StackInlineArgs {
                start_bound: Some("_".to_owned()),
                end_bound: Some("_".to_owned()),
                line_state: line,
                line_root,
            },
        ),
    )
}

/// Opens strong emphasis.
pub fn push_strong(state: &mut State, out: &mut String, line: LineState, line_root: bool) -> (r:
    StackRes)
    requires
        line.valid(*old(state)),
        writable(old(state)@, line.id as int),
    ensures
        agrees(
            Some(r),
            *final(state),
            final(out)@,
            line::world(*old(state), old(out)@),
            inline_start(
                line::world(*old(state), old(out)@),
                line.id as int,
                TagView::Strong,
                line_root,
            ),
        ),
{
    StackRes::Push(
        StackInline::new(
            state,
            out,
            StackInlineArgs {
                start_bound: Some("**".to_owned()),
                end_bound: Some("**".to_owned()),
                line_state: line,
                line_root,
            },
        ),
    )
}

/// Opens text that is struck through.
pub fn push_strikethrough(
    state: &mut State,
    out: &mut String,
    line: LineState,
    line_root: bool,
) -> (r: StackRes)
    requires
        line.valid(*old(state)),
        writable(old(state)@, line.id as int),
    ensures
        agrees(
            Some(r),
            *final(state),
            final(out)@,
            line::world(*old(state), old(out)@),
            inline_start(
                line::world(*old(state), old(out)@),
                line.id as int,
                TagView::Strikethrough,
                line_root,
            ),
        ),
{
    StackRes::Push(
        StackInline::new(
            state,
            out,
            StackInlineArgs {
                start_bound: Some("~".to_owned()),
                end_bound: Some("~".to_owned()),
                line_state: line,
                line_root,
            },
        ),
    )
}

/// Opens a link.
pub fn push_link(
    state: &mut State,
    out: &mut String,
    line: LineState,
    line_root: bool,
    url: &str,
    title: &str,
) -> (r: StackRes)
    requires
        line.valid(*old(state)),
        writable(old(state)@, line.id as int),
    ensures
        agrees(
            Some(r),
            *final(state),
            final(out)@,
            line::world(*old(state), old(out)@),
            inline_start(
                line::world(*old(state), old(out)@),
                line.id as int,
                TagView::Link { url: url@, title: title@ },
                line_root,
            ),
        ),
{
    StackRes::Push(
        StackInline::new(
            state,
            out,
            StackInlineArgs {
                start_bound: Some("[".to_owned()),
                end_bound: Some(String::from_str("](").concat(url).concat(")")),
                line_state: line,
                line_root,
            },
        ),
    )
}

/// Code between back quotes.
fn quoted(s: &str) -> (r: String)
    ensures
        r@ == code_span(s@),
{
    String::from_str("`").concat(s).concat("`")
}

impl StackInline {
    /// Handles the start of a part within a line.
    fn start(&self, state: &mut State, out: &mut String, tag: &Tag) -> (r: Option<StackRes>)
        requires
            self.line.valid(*old(state)),
        ensures
            agrees(
                r,
                *final(state),
                final(out)@,
                line::world(*old(state), old(out)@),
                inline_tag(line::world(*old(state), old(out)@), self.line.id as int, tag@),
            ),
    {
        if !self.line.can_write(state) {
            return None;
        }
        match tag {
            Tag::Emphasis => Some(push_emphasis(state, out, self.line.share(), false)),
            Tag::Strong => Some(push_strong(state, out, self.line.share(), false)),
            Tag::Strikethrough => Some(push_strikethrough(state, out, self.line.share(), false)),
            Tag::Link { url, title } => Some(
                push_link(state, out, self.line.share(), false, url.as_str(), title.as_str()),
            ),
            Tag::Image { url, title } => {
                write_image(state, out, &self.line, url.as_str(), title.as_str());
                Some(StackRes::Keep)
            },
            _ => None,
        }
    }

    /// Handles an event within a line.
    pub fn handle(&mut self, state: &mut State, out: &mut String, e: &Event) -> (r: Option<StackRes>)
        requires
            old(self).line.valid(*old(state)),
        ensures
            *final(self) == *old(self),
            agrees(
                r,
                *final(state),
                final(out)@,
                line::world(*old(state), old(out)@),
                inline_step(old(self)@, line::world(*old(state), old(out)@), e@),
            ),
    {
        let can_write: bool = self.line.can_write(state);
        match e {
            Event::End => {
                if let Some(b) = &self.end_bound {
                    if !can_write {
                        return None;
                    }
                    self.line.write_unbreakable(state, out, b.as_str());
                }
                if self.line_root {
                    self.line.flush(state, out);
                }
                Some(StackRes::Pop)
            },
            Event::SoftBreak => {
                if !can_write {
                    return None;
                }
                self.line.write_whitespace(state, out, " ");
                Some(StackRes::Keep)
            },
            Event::HardBreak => {
                if !can_write {
                    return None;
                }
                self.line.write_whitespace(state, out, " ");
                Some(StackRes::Keep)
            },
            Event::Text(x) => {
                if !can_write {
                    return None;
                }
                self.line.write_breakable(state, out, x.as_str());
                Some(StackRes::Keep)
            },
            Event::Code(x) => {
                if !can_write {
                    return None;
                }
                self.line.write_unbreakable(state, out, quoted(x.as_str()).as_str());
                Some(StackRes::Keep)
            },
            Event::Start(tag) => self.start(state, out, tag),
            _ => None,
        }
    }
}

impl StackBlock {
    /// A part that holds blocks, with what is written at its start.
    pub fn new(state: &mut State, out: &mut String, args: StackBlockArgs) -> (r: StackEl)
        requires
            args.line.valid(*old(state)),
            args.start_bound is Some ==> writable(old(state)@, args.line.id as int),
        ensures
            r@ == ElView::Block(
                (BlockView {
                    line: args.line.id as int,
                    first: true,
                    was_inline: false,
                    end_bound: line::text_view(args.end_bound),
                }),
            ),
            Some(line::world(*final(state), final(out)@)) == bound_written(
                line::world(*old(state), old(out)@),
                args.line.id as int,
                line::text_view(args.start_bound),
            ),
    {
        if let Some(b) = args.start_bound {
            args.line.write_unbreakable(state, out, b.as_str());
        }
        StackEl::Block(
            StackBlock {
                line: args.line,
                first: true,
                was_inline: false,
                end_bound: args.end_bound,
            },
        )
    }

    /// A block comes. False where the line before it has not ended; nothing has
    /// changed.
    pub fn block_ev(&mut self, state: &mut State, out: &mut String) -> (r: bool)
        requires
            old(self).line.valid(*old(state)),
        ensures
            final(self).line == old(self).line,
            match block_ev(old(self)@, line::world(*old(state), old(out)@)) {
                None => !r && *final(self) == *old(self) && line::world(
                    *final(state),
                    final(out)@,
                ) == line::world(*old(state), old(out)@),
                Some((next, w)) => r && final(self)@ == next && line::world(
                    *final(state),
                    final(out)@,
                ) == w,
            },
    {
        if self.was_inline {
            self.line.flush(state, out);
            self.was_inline = false;
        }
        if !self.first {
            if !state.line_buffer.as_str().is_empty() {
                return false;
            }
            self.line.write_newline(state, out);
        }
        self.first = false;
        true
    }

    /// A part of a line has come.
    pub fn inline_ev(&mut self)
        ensures
            final(self)@ == inline_ev(old(self)@),
            final(self).line == old(self).line,
            final(self).end_bound == old(self).end_bound,
    {
        self.was_inline = true;
        self.first = false;
    }
}

/// What a handler that may change its part gives back and leaves behind. Where it
/// is to give nothing, it leaves behind what there was, `before` and `el_before`.
pub open spec fn block_agrees(
    r: Option<StackRes>,
    el: BlockView,
    state: State,
    out: Seq<char>,
    el_before: BlockView,
    before: World,
    expected: Option<(BlockView, World, ResView)>,
) -> bool {
    match expected {
        None => r is None && el == el_before && line::world(state, out) == before,
        Some((next, w, res)) => r matches Some(given) && given@ == res && el == next
            && line::world(state, out) == w,
    }
}

impl StackBlock {
    /// Opens a block within this part.
    fn open(&self, state: &mut State, out: &mut String, tag: &Tag) -> (r: Option<StackRes>)
        requires
            self.line.valid(*old(state)),
        ensures
            agrees(
                r,
                *final(state),
                final(out)@,
                line::world(*old(state), old(out)@),
                block_open(line::world(*old(state), old(out)@), self.line.id as int, tag@),
            ),
    {
        match tag {
            Tag::Paragraph => {
                let line: LineState = self.line.indent(state, None, String::new(), false);
                Some(StackRes::Push(content(state, out, line)))
            },
            Tag::Heading(level) => {
                let mark: String = text::repeated('#', *level);
                let line: LineState = self.line.indent(state, Some(mark), "  ".to_owned(), true);
                Some(StackRes::Push(content(state, out, line)))
            },
            Tag::BlockQuote => {
                let line: LineState = self.line.indent(state, None, ">".to_owned(), false);
                Some(StackRes::Push(container(state, out, line)))
            },
            Tag::CodeBlock(lang) => {
                if !self.line.can_write(state) {
                    return None;
                }
                match lang {
                    CodeBlockKind::Indented => {
                        self.line.write_unbreakable(state, out, "```");
                    },
                    CodeBlockKind::Fenced(x) => {
                        let fence: String = String::from_str("```").concat(x.as_str());
                        self.line.write_unbreakable(state, out, fence.as_str());
                    },
                }
                let line: LineState = self.line.zero_indent(state);
                Some(StackRes::Push(StackEl::CodeBlock(StackCodeBlock { line })))
            },
            Tag::List(ordered) => {
                let line: LineState = self.line.zero_indent(state);
                match ordered {
                    Some(index) => Some(
                        StackRes::Push(
                            StackEl::NumberList(StackNumberList { count: *index, line }),
                        ),
                    ),
                    None => Some(StackRes::Push(StackEl::BulletList(StackBulletList { line }))),
                }
            },
            _ => None,
        }
    }

    /// Handles the start of a part within this one.
    fn start(&mut self, state: &mut State, out: &mut String, tag: &Tag) -> (r: Option<StackRes>)
        requires
            old(self).line.valid(*old(state)),
        ensures
            final(self).line == old(self).line,
            block_agrees(
                r,
                final(self)@,
                *final(state),
                final(out)@,
                old(self)@,
                line::world(*old(state), old(out)@),
                block_tag(old(self)@, line::world(*old(state), old(out)@), tag@),
            ),
    {
        match tag {
            Tag::Link { url, title } => {
                if !self.line.can_write(state) {
                    return None;
                }
                self.was_inline = true;
                let _ = push_link(
                    state,
                    out,
                    self.line.share(),
                    true,
                    url.as_str(),
                    title.as_str(),
                );
                Some(StackRes::Keep)
            },
            Tag::Image { url, title } => {
                if !self.line.can_write(state) {
                    return None;
                }
                self.inline_ev();
                write_image(state, out, &self.line, url.as_str(), title.as_str());
                Some(StackRes::Keep)
            },
            Tag::Emphasis => {
                if !self.line.can_write(state) {
                    return None;
                }
                self.inline_ev();
                Some(push_emphasis(state, out, self.line.share(), true))
            },
            Tag::Strong => {
                if !self.line.can_write(state) {
                    return None;
                }
                self.inline_ev();
                Some(push_strong(state, out, self.line.share(), true))
            },
            Tag::Strikethrough => {
                if !self.line.can_write(state) {
                    return None;
                }
                self.inline_ev();
                Some(push_strikethrough(state, out, self.line.share(), true))
            },
            Tag::CodeBlock(_) => {
                if !self.line.can_write(state) || !self.block_ev(state, out) {
                    return None;
                }
                self.open(state, out, tag)
            },
            Tag::Paragraph | Tag::Heading(_) | Tag::BlockQuote | Tag::List(_) => {
                if !self.block_ev(state, out) {
                    return None;
                }
                self.open(state, out, tag)
            },
            _ => None,
        }
    }

    /// Handles an event in a part that holds blocks.
    pub fn handle(&mut self, state: &mut State, out: &mut String, e: &Event) -> (r: Option<StackRes>)
        requires
            old(self).line.valid(*old(state)),
        ensures
            final(self).line == old(self).line,
            block_agrees(
                r,
                final(self)@,
                *final(state),
                final(out)@,
                old(self)@,
                line::world(*old(state), old(out)@),
                block_step(old(self)@, line::world(*old(state), old(out)@), e@),
            ),
    {
        match e {
            Event::Start(tag) => self.start(state, out, tag),
            Event::End => {
                if self.end_bound.is_some() && !self.line.can_write(state) {
                    return None;
                }
                if self.was_inline {
                    self.line.flush(state, out);
                }
                if let Some(b) = &self.end_bound {
                    self.line.write_unbreakable(state, out, b.as_str());
                    self.line.flush(state, out);
                }
                Some(StackRes::Pop)
            },
            Event::Text(t) => {
                if !self.line.can_write(state) {
                    return None;
                }
                self.inline_ev();
                self.line.write_breakable(state, out, t.as_str());
                Some(StackRes::Keep)
            },
            Event::Code(x) => {
                if !self.line.can_write(state) {
                    return None;
                }
                self.inline_ev();
                self.line.write_unbreakable(state, out, quoted(x.as_str()).as_str());
                Some(StackRes::Keep)
            },
            Event::SoftBreak => Some(StackRes::Keep),
            _ => None,
        }
    }
}

/// The content of a paragraph or a heading.
fn content(state: &mut State, out: &mut String, line: LineState) -> (r: StackEl)
    requires
        line.valid(*old(state)),
    ensures
        ResView::Push(r@) == open_content(line.id as int),
        line::world(*final(state), final(out)@) == line::world(*old(state), old(out)@),
{
    StackInline::new(
        state,
        out,
        StackInlineArgs { start_bound: None, end_bound: None, line_state: line, line_root: true },
    )
}

/// A part that holds blocks, with no bounds.
fn container(state: &mut State, out: &mut String, line: LineState) -> (r: StackEl)
    requires
        line.valid(*old(state)),
    ensures
        ResView::Push(r@) == open_block(line.id as int),
        line::world(*final(state), final(out)@) == line::world(*old(state), old(out)@),
{
    StackBlock::new(
        state,
        out,
        StackBlockArgs { line, start_bound: None, end_bound: None },
    )
}

impl StackNumberList {
    /// Handles an event in an ordered list, whose count goes up with each event that
    /// can come in it.
    pub fn handle(&mut self, state: &mut State, out: &mut String, e: &Event) -> (r: Option<StackRes>)
        requires
            old(self).line.valid(*old(state)),
        ensures
            final(self).line == old(self).line,
            final(self).count == old(self).count + (if r is Some {
                1int
            } else {
                0
            }),
            agrees(
                r,
                *final(state),
                final(out)@,
                line::world(*old(state), old(out)@),
                if old(self).count == u64::MAX {
                    None
                } else {
                    list_step(
                        old(self).line.id as int,
                        number_mark(old(self).count),
                        line::world(*old(state), old(out)@),
                        e@,
                    )
                },
            ),
    {
        let use_count: u64 = self.count;
        if use_count == u64::MAX {
            return None;
        }
        match e {
            Event::Start(Tag::Item) => {
                self.count = use_count + 1;
                let mut mark: String = String::new();
                text::push_decimal(&mut mark, use_count);
                mark.append(". ");
                assert(mark@ =~= number_mark(use_count));
                let line: LineState = self.line.indent(state, Some(mark), "   ".to_owned(), false);
                Some(StackRes::Push(container(state, out, line)))
            },
            Event::End => {
                self.count = use_count + 1;
                Some(StackRes::Pop)
            },
            _ => None,
        }
    }
}

impl StackBulletList {
    /// Handles an event in a list that is not ordered.
    pub fn handle(&mut self, state: &mut State, out: &mut String, e: &Event) -> (r: Option<StackRes>)
        requires
            old(self).line.valid(*old(state)),
        ensures
            *final(self) == *old(self),
            agrees(
                r,
                *final(state),
                final(out)@,
                line::world(*old(state), old(out)@),
                list_step(
                    old(self).line.id as int,
                    "* "@,
                    line::world(*old(state), old(out)@),
                    e@,
                ),
            ),
    {
        match e {
            Event::Start(Tag::Item) => {
                let line: LineState = self.line.indent(
                    state,
                    Some("* ".to_owned()),
                    "   ".to_owned(),
                    false,
                );
                Some(StackRes::Push(container(state, out, line)))
            },
            Event::End => Some(StackRes::Pop),
            _ => None,
        }
    }
}

impl StackCodeBlock {
    /// Writes the lines of a code block.
    fn write_lines(&self, state: &mut State, out: &mut String, s: &str) -> (r: bool)
        requires
            self.line.valid(*old(state)),
        ensures
            ({
                let w = line::world(*old(state), old(out)@);
                let l = self.line.id as int;
                if writable(w, l) || text::text_lines(s@).len() == 0 {
                    r && line::world(*final(state), final(out)@) == code_lines(
                        w,
                        l,
                        text::text_lines(s@),
                    )
                } else {
                    !r && line::world(*final(state), final(out)@) == w
                }
            }),
    {
        let ghost w = line::world(*state, out@);
        let ghost l = self.line.id as int;
        let cs: Vec<char> = text::chars_of(s);
        let lines: Vec<(usize, usize)> = text::line_ranges(&cs, 0, cs.len());
        let ghost all = text::text_lines(s@);
        assert(cs@.subrange(0, cs@.len() as int) =~= cs@);
        assert(all.len() == lines@.len());
        if lines.len() > 0 && !self.line.can_write(state) {
            return false;
        }
        let total: usize = lines.len();
        let mut i: usize = 0;
        assert(all.take(0) =~= Seq::<Seq<char>>::empty());
        while i < total
            invariant
                i <= total,
                total == lines@.len(),
                all == text::cut(cs@, lines@),
                all.len() == total,
                forall|k: int|
                    0 <= k < lines@.len() ==> (#[trigger] lines@[k]).0 <= lines@[k].1 <= cs@.len(),
                l == self.line.id,
                self.line.valid(*state),
                total > 0 ==> writable(state@, l),
                line::world(*state, out@) == code_lines(w, l, all.take(i as int)),
            decreases total - i,
        {
            let (a, b) = lines[i];
            let text: String = text::string_of(&cs, a, b);
            self.line.write_unbreakable(state, out, text.as_str());
            self.line.flush(state, out);
            proof {
                assert(text@ =~= all[i as int]);
                assert(all.take(i + 1).drop_last() =~= all.take(i as int));
            }
            i = i + 1;
        }
        assert(all.take(total as int) =~= all);
        true
    }

    /// Handles an event in a code block.
    pub fn handle(&mut self, state: &mut State, out: &mut String, e: &Event) -> (r: Option<StackRes>)
        requires
            old(self).line.valid(*old(state)),
        ensures
            *final(self) == *old(self),
            agrees(
                r,
                *final(state),
                final(out)@,
                line::world(*old(state), old(out)@),
                code_step(old(self).line.id as int, line::world(*old(state), old(out)@), e@),
            ),
    {
        match e {
            Event::Text(t) => {
                if self.write_lines(state, out, t.as_str()) {
                    Some(StackRes::Keep)
                } else {
                    None
                }
            },
            Event::End => {
                if !self.line.can_write(state) {
                    return None;
                }
                self.line.write_unbreakable(state, out, "```");
                self.line.flush(state, out);
                Some(StackRes::Pop)
            },
            _ => None,
        }
    }
}

impl StackEl {
    /// Handles an event. Nothing is given back where the event cannot come in this
    /// part, or cannot be written; nothing has changed.
    pub fn handle(&mut self, state: &mut State, out: &mut String, e: &Event) -> (r: Option<StackRes>)
        requires
            is_valid(old(self)@, old(state)@),
        ensures
            match step(old(self)@, line::world(*old(state), old(out)@), e@) {
                None => r is None && final(self)@ == old(self)@ && line::world(
                    *final(state),
                    final(out)@,
                ) == line::world(*old(state), old(out)@),
                Some((next, w, res)) => r matches Some(given) && given@ == res && final(self)@
                    == next && line::world(*final(state), final(out)@) == w,
            },
    {
        reveal(step);
        match self {
            StackEl::Inline(el) => el.handle(state, out, e),
            StackEl::Block(el) => el.handle(state, out, e),
            StackEl::NumberList(el) => el.handle(state, out, e),
            StackEl::BulletList(el) => el.handle(state, out, e),
            StackEl::CodeBlock(el) => el.handle(state, out, e),
        }
    }
}

} // verus!
