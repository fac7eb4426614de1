//! The models of values hold what the values hold.
use vstd::prelude::*;
use crate::comment::Comment;
use crate::comment_map::CommentMap;
use crate::location::HashLineColumn;
use crate::markdown::{self, CodeBlockKind, Event, EventView, Tag, TagView};
use crate::tokens::{self, Token};

verus! {

/// Texts, code and addresses stand in the model of an event character by character,
/// and the number of a heading's level and of a list's first item as they are.
pub proof fn law_event_model(text: String, title: String, level: usize, first: u64)
    ensures
        Event::Text(text)@ == EventView::Text(text@),
        Event::Code(text)@ == EventView::Code(text@),
        Event::Start(Tag::Link { url: text, title })@ == EventView::Start(
            TagView::Link { url: text@, title: title@ },
        ),
        Event::Start(Tag::Image { url: text, title })@ == EventView::Start(
            TagView::Image { url: text@, title: title@ },
        ),
        Event::Start(Tag::CodeBlock(CodeBlockKind::Fenced(text)))@ == EventView::Start(
            TagView::CodeBlock(Some(text@)),
        ),
        Event::Start(Tag::Heading(level))@ == EventView::Start(TagView::Heading(level as nat)),
        Event::Start(Tag::List(Some(first)))@ == EventView::Start(TagView::List(Some(first))),
{
}

/// Two events with one model are the same, but for a code block: one that is fenced
/// has a language there, even an empty one, and one that is indented has none.
pub proof fn law_event_models_differ(a: Event, b: Event)
    requires
        a@ == b@,
    ensures
        match (a, b) {
            (Event::Text(s), Event::Text(t)) => s@ == t@,
            (Event::Code(s), Event::Code(t)) => s@ == t@,
            (Event::Start(s), Event::Start(t)) => same_tag(s, t),
            (Event::End, Event::End) => true,
            (Event::Html, Event::Html) => true,
            (Event::FootnoteReference, Event::FootnoteReference) => true,
            (Event::SoftBreak, Event::SoftBreak) => true,
            (Event::HardBreak, Event::HardBreak) => true,
            (Event::Rule, Event::Rule) => true,
            (Event::TaskListMarker, Event::TaskListMarker) => true,
            _ => false,
        },
{
}

/// The tags are of the same kind and hold the same.
pub open spec fn same_tag(a: Tag, b: Tag) -> bool {
    match (a, b) {
        (Tag::Heading(m), Tag::Heading(n)) => m == n,
        (Tag::CodeBlock(CodeBlockKind::Fenced(s)), Tag::CodeBlock(CodeBlockKind::Fenced(t))) => s@
            == t@,
        (Tag::CodeBlock(CodeBlockKind::Indented), Tag::CodeBlock(CodeBlockKind::Indented)) => true,
        (Tag::List(m), Tag::List(n)) => m == n,
        (Tag::Link { url, title }, Tag::Link { url: u, title: t }) => url@ == u@ && title@ == t@,
        (Tag::Image { url, title }, Tag::Image { url: u, title: t }) => url@ == u@ && title@ == t@,
        (Tag::Paragraph, Tag::Paragraph) => true,
        (Tag::BlockQuote, Tag::BlockQuote) => true,
        (Tag::Item, Tag::Item) => true,
        (Tag::FootnoteDefinition, Tag::FootnoteDefinition) => true,
        (Tag::Table, Tag::Table) => true,
        (Tag::TableHead, Tag::TableHead) => true,
        (Tag::TableRow, Tag::TableRow) => true,
        (Tag::TableCell, Tag::TableCell) => true,
        (Tag::Emphasis, Tag::Emphasis) => true,
        (Tag::Strong, Tag::Strong) => true,
        (Tag::Strikethrough, Tag::Strikethrough) => true,
        _ => false,
    }
}

/// The models of events, tokens and comments stand in the order of these, one for
/// each.
pub proof fn law_models_in_order(events: Seq<Event>, list: Seq<Token>, comments: Seq<Comment>)
    ensures
        markdown::views(events).len() == events.len(),
        forall|i: int| 0 <= i < events.len() ==> #[trigger] markdown::views(events)[i] == events[i]@,
        tokens::views(list).len() == list.len(),
        forall|i: int| 0 <= i < list.len() ==> #[trigger] tokens::views(list)[i] == list[i]@,
        crate::comment::views(comments).len() == comments.len(),
        forall|i: int|
            0 <= i < comments.len() ==> #[trigger] crate::comment::views(comments)[i]
                == comments[i]@,
{
}

/// The model of a token and that of a comment hold each part of them.
pub proof fn law_token_model(t: Token, c: Comment)
    ensures
        t@.kind == t.kind,
        t@.open == t.open,
        t@.close == t.close,
        t@.size == t.size,
        t@.text == t.text@,
        c@.mode == c.mode,
        c@.lines == c.lines@,
{
}

/// A map of comments holds an entry for a position if and only if one of its entries
/// stands at the position, and holds the comments of that entry.
pub proof fn law_map_model(map: CommentMap, key: HashLineColumn)
    requires
        map.wf(),
    ensures
        map@.contains_key(key) <==> exists|i: int|
            0 <= i < map.entries@.len() && (#[trigger] map.entries@[i]).0 == key,
        forall|i: int|
            0 <= i < map.entries@.len() && (#[trigger] map.entries@[i]).0 == key ==> map@[key]
                == crate::comment::views(map.entries@[i].1@),
{
    assert(map@.contains_key(key) <==> map.holds(key));
    assert forall|i: int| 0 <= i < map.entries@.len() && (#[trigger] map.entries@[i]).0
        == key implies map@[key] == crate::comment::views(map.entries@[i].1@) by {
        map.lemma_entry(i);
    }
}

} // verus!
