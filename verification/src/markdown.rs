//! Markdown as a sequence of events.
use vstd::prelude::*;
use vstd::string::*;
use pulldown_cmark::{CodeBlockKind as OuterKind, Event as OuterEvent, Parser, Tag as OuterTag};

verus! {

/// How a code block was written.
#[derive(PartialEq, Eq, Debug)]
pub enum CodeBlockKind {
    Indented,
    /// With fences, the first of which names the language.
    Fenced(String),
}

/// What a part of the document is.
#[derive(PartialEq, Eq, Debug)]
pub enum Tag {
    Paragraph,
    /// A heading of the given level, from one to six.
    Heading(usize),
    BlockQuote,
    CodeBlock(CodeBlockKind),
    /// A list. An ordered one has the number of its first item.
    List(Option<u64>),
    Item,
    FootnoteDefinition,
    Table,
    TableHead,
    TableRow,
    TableCell,
    Emphasis,
    Strong,
    Strikethrough,
    Link {
        url: String,
        title: String,
    },
    Image {
        url: String,
        title: String,
    },
}

/// What the reader of a document comes upon.
#[derive(PartialEq, Eq, Debug)]
pub enum Event {
    Start(Tag),
    /// The end of the innermost part that has started.
    End,
    Text(String),
    Code(String),
    Html,
    FootnoteReference,
    SoftBreak,
    HardBreak,
    Rule,
    TaskListMarker,
}

/// The model of a [`Tag`].
pub enum TagView {
    Paragraph,
    Heading(nat),
    BlockQuote,
    /// With the language of a fenced block.
    CodeBlock(Option<Seq<char>>),
    List(Option<u64>),
    Item,
    FootnoteDefinition,
    Table,
    TableHead,
    TableRow,
    TableCell,
    Emphasis,
    Strong,
    Strikethrough,
    Link { url: Seq<char>, title: Seq<char> },
    Image { url: Seq<char>, title: Seq<char> },
}

/// The model of an [`Event`].
pub enum EventView {
    Start(TagView),
    End,
    Text(Seq<char>),
    Code(Seq<char>),
    Html,
    FootnoteReference,
    SoftBreak,
    HardBreak,
    Rule,
    TaskListMarker,
}

impl View for Tag {
    type V = TagView;

    open spec fn view(&self) -> TagView {
        match *self {
            Tag::Paragraph => TagView::Paragraph,
            Tag::Heading(level) => TagView::Heading(level as nat),
            Tag::BlockQuote => TagView::BlockQuote,
            Tag::CodeBlock(CodeBlockKind::Indented) => TagView::CodeBlock(None),
            Tag::CodeBlock(CodeBlockKind::Fenced(lang)) => TagView::CodeBlock(Some(lang@)),
            Tag::List(start) => TagView::List(start),
            Tag::Item => TagView::Item,
            Tag::FootnoteDefinition => TagView::FootnoteDefinition,
            Tag::Table => TagView::Table,
            Tag::TableHead => TagView::TableHead,
            Tag::TableRow => TagView::TableRow,
            Tag::TableCell => TagView::TableCell,
            Tag::Emphasis => TagView::Emphasis,
            Tag::Strong => TagView::Strong,
            Tag::Strikethrough => TagView::Strikethrough,
            Tag::Link { url, title } => TagView::Link { url: url@, title: title@ },
            Tag::Image { url, title } => TagView::Image { url: url@, title: title@ },
        }
    }
}

impl View for Event {
    type V = EventView;

    open spec fn view(&self) -> EventView {
        match *self {
            Event::Start(tag) => EventView::Start(tag@),
            Event::End => EventView::End,
            Event::Text(text) => EventView::Text(text@),
            Event::Code(text) => EventView::Code(text@),
            Event::Html => EventView::Html,
            Event::FootnoteReference => EventView::FootnoteReference,
            Event::SoftBreak => EventView::SoftBreak,
            Event::HardBreak => EventView::HardBreak,
            Event::Rule => EventView::Rule,
            Event::TaskListMarker => EventView::TaskListMarker,
        }
    }
}

/// The models of a list of events.
pub open spec fn views(events: Seq<Event>) -> Seq<EventView> {
    events.map_values(|e: Event| e@)
}

/// A tag that stands within a line.
pub open spec fn is_inline(tag: TagView) -> bool {
    tag is Emphasis || tag is Strong || tag is Strikethrough || tag is Link || tag is Image
}

/// `pulldown_cmark::Parser`: the events of a document that are still to come.
#[verifier::external_type_specification]
#[verifier::external_body]
pub struct ExParser<'input, 'callback>(Parser<'input, 'callback>);

/// `pulldown_cmark::Tag`: what a part of a document is.
#[verifier::external_type_specification]
#[verifier::external_body]
pub struct ExTag<'a>(OuterTag<'a>);

/// The events of a document.
pub uninterp spec fn document(source: Seq<char>) -> Seq<EventView>;

/// The events that a parser still gives.
pub uninterp spec fn remaining(parser: Parser<'_, '_>) -> Seq<EventView>;

/// What a parser's tag says.
pub uninterp spec fn tag_value(tag: OuterTag<'_>) -> TagView;

/// An event as the parser gives it.
pub enum RawEvent<'a> {
    /// A part that starts, with the parser's tag.
    Start(OuterTag<'a>),
    /// Any other event.
    Other(Event),
}

/// The event that `raw` is.
pub open spec fn raw_view(raw: RawEvent<'_>) -> EventView {
    match raw {
        RawEvent::Start(tag) => EventView::Start(tag_value(tag)),
        RawEvent::Other(event) => event@,
    }
}

/// `Parser::new`: a parser of a document, without extensions. The events depend
/// on the text alone.
#[verifier::external_body]
fn new_parser<'a>(source: &'a str) -> (r: Parser<'a, 'a>)
    ensures
        remaining(r) == document(source@),
{
    Parser::new(source)
}

/// `Parser::next`: takes the next event off the parser.
#[verifier::external_body]
fn next_event<'a>(parser: &mut Parser<'a, 'a>) -> (r: Option<RawEvent<'a>>)
    ensures
        match r {
            Some(raw) => remaining(*old(parser)) == seq![raw_view(raw)] + remaining(*final(parser)),
            None => remaining(*old(parser)).len() == 0,
        },
{
    Some(RawEvent::Other(match parser.next()? {
        OuterEvent::Start(tag) => return Some(RawEvent::Start(tag)),
        OuterEvent::End(_) => Event::End,
        OuterEvent::Text(text) => Event::Text(text.to_string()),
        OuterEvent::Code(text) => Event::Code(text.to_string()),
        OuterEvent::Html(_) => Event::Html,
        OuterEvent::FootnoteReference(_) => Event::FootnoteReference,
        OuterEvent::SoftBreak => Event::SoftBreak,
        OuterEvent::HardBreak => Event::HardBreak,
        OuterEvent::Rule => Event::Rule,
        OuterEvent::TaskListMarker(_) => Event::TaskListMarker,
    }))
}

/// The variants of `pulldown_cmark::Tag` that stand within a line.
#[verifier::external_body]
fn inline_tag(tag: &OuterTag<'_>) -> (r: Option<Tag>)
    ensures
        r is Some <==> is_inline(tag_value(*tag)),
        r matches Some(t) ==> t@ == tag_value(*tag),
{
    match tag {
        OuterTag::Emphasis => Some(Tag::Emphasis),
        OuterTag::Strong => Some(Tag::Strong),
        OuterTag::Strikethrough => Some(Tag::Strikethrough),
        OuterTag::Link(_, url, title) => Some(
            Tag::Link { url: url.to_string(), title: title.to_string() },
        ),
        OuterTag::Image(_, url, title) => Some(
            Tag::Image { url: url.to_string(), title: title.to_string() },
        ),
        _ => None,
    }
}

/// The variants of `pulldown_cmark::Tag` that stand on lines of their own.
#[verifier::external_body]
fn block_tag(tag: &OuterTag<'_>) -> (r: Option<Tag>)
    ensures
        r is Some <==> !is_inline(tag_value(*tag)),
        r matches Some(t) ==> t@ == tag_value(*tag),
{
    Some(match tag {
        OuterTag::Paragraph => Tag::Paragraph,
        OuterTag::Heading(level, _, _) => Tag::Heading(*level as usize),
        OuterTag::BlockQuote => Tag::BlockQuote,
        OuterTag::CodeBlock(OuterKind::Indented) => Tag::CodeBlock(CodeBlockKind::Indented),
        OuterTag::CodeBlock(OuterKind::Fenced(lang)) => Tag::CodeBlock(CodeBlockKind::Fenced(lang.to_string())),
        OuterTag::List(start) => Tag::List(*start),
        OuterTag::Item => Tag::Item,
        OuterTag::FootnoteDefinition(_) => Tag::FootnoteDefinition,
        OuterTag::Table(_) => Tag::Table,
        OuterTag::TableHead => Tag::TableHead,
        OuterTag::TableRow => Tag::TableRow,
        OuterTag::TableCell => Tag::TableCell,
        _ => return None,
    })
}

/// The parser's tag as a plain value.
fn tag_of(tag: &OuterTag<'_>) -> (r: Tag)
    ensures
        r@ == tag_value(*tag),
{
    match inline_tag(tag) {
        Some(r) => r,
        None => match block_tag(tag) {
            Some(r) => r,
            None => vstd::pervasive::unreached(),
        },
    }
}

/// The events of a document.
pub fn parse(source: &str) -> (r: Vec<Event>)
    ensures
        views(r@) == document(source@),
{
    let mut parser: Parser = new_parser(source);
    let mut r: Vec<Event> = Vec::new();
    assert(views(r@) + document(source@) =~= document(source@));
    loop
        invariant
            views(r@) + remaining(parser) == document(source@),
        decreases remaining(parser).len(),
    {
        let ghost before = remaining(parser);
        let raw: RawEvent = match next_event(&mut parser) {
            None => {
                assert(views(r@) + before =~= views(r@));
                return r;
            },
            Some(raw) => raw,
        };
        let event: Event = match raw {
            RawEvent::Start(tag) => Event::Start(tag_of(&tag)),
            RawEvent::Other(event) => event,
        };
        let ghost done = r@;
        r.push(event);
        proof {
            assert(event@ == raw_view(raw));
            assert(views(r@) =~= views(done).push(event@));
            assert(views(r@) + remaining(parser) =~= views(done) + before);
        }
    }
}

} // verus!
