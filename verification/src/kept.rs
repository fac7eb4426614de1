//! The text of a document stands in what is written of it.
use vstd::prelude::*;
use crate::line::{self, World};
use crate::line_laws;
use crate::markdown::{EventView, TagView};
use crate::render::{self, Machine};
use crate::render_laws;
use crate::stack::{self, BlockView, ElView, InlineView};
use crate::text;

verus! {

/// The characters of `a` stand in `b`, in the same order, with others between them.
pub open spec fn embeds(a: Seq<char>, b: Seq<char>) -> bool
    decreases b.len(),
{
    if a.len() == 0 {
        true
    } else if b.len() == 0 {
        false
    } else {
        ||| a.last() == b.last() && embeds(a.drop_last(), b.drop_last())
        ||| embeds(a, b.drop_last())
    }
}

/// Every text stands in itself.
proof fn lemma_embeds_self(a: Seq<char>)
    ensures
        embeds(a, a),
    decreases a.len(),
{
    if a.len() > 0 {
        lemma_embeds_self(a.drop_last());
    }
}

/// What stands in a part stands in the whole.
proof fn lemma_embeds_twice(a: Seq<char>, b: Seq<char>, c: Seq<char>)
    requires
        embeds(a, b),
        embeds(b, c),
    ensures
        embeds(a, c),
    decreases c.len(),
{
    if a.len() > 0 {
        if embeds(b, c.drop_last()) {
            lemma_embeds_twice(a, b, c.drop_last());
        } else if embeds(a, b.drop_last()) {
            lemma_embeds_twice(a, b.drop_last(), c.drop_last());
        } else {
            lemma_embeds_twice(a.drop_last(), b.drop_last(), c.drop_last());
        }
    }
}

proof fn lemma_embeds_longer(a: Seq<char>, b: Seq<char>, c: Seq<char>)
    requires
        embeds(a, b),
    ensures
        embeds(a, b + c),
    decreases c.len(),
{
    if c.len() == 0 {
        assert(b + c =~= b);
    } else {
        assert((b + c).drop_last() =~= b + c.drop_last());
        lemma_embeds_longer(a, b, c.drop_last());
    }
}

/// Two texts stand in two others, one behind the other.
proof fn lemma_embeds_concat(a: Seq<char>, b: Seq<char>, c: Seq<char>, d: Seq<char>)
    requires
        embeds(a, b),
        embeds(c, d),
    ensures
        embeds(a + c, b + d),
    decreases d.len(),
{
    if c.len() == 0 {
        assert(a + c =~= a);
        lemma_embeds_longer(a, b, d);
    } else {
        assert((a + c).drop_last() =~= a + c.drop_last());
        assert((b + d).drop_last() =~= b + d.drop_last());
        if embeds(c, d.drop_last()) {
            lemma_embeds_concat(a, b, c, d.drop_last());
        } else {
            lemma_embeds_concat(a, b, c.drop_last(), d.drop_last());
        }
    }
}

/// Something put before a part, and behind it.
proof fn lemma_embeds_within(a: Seq<char>, before: Seq<char>, b: Seq<char>, behind: Seq<char>)
    requires
        embeds(a, b),
    ensures
        embeds(a, before + b + behind),
{
    assert(embeds(Seq::empty(), before));
    lemma_embeds_concat(Seq::empty(), before, a, b);
    assert(Seq::<char>::empty() + a =~= a);
    lemma_embeds_longer(a, before + b, behind);
}

/// The solid characters that have been written or wait in the buffer.
pub open spec fn stream(w: World) -> Seq<char> {
    line_laws::solid(w.out) + line_laws::solid(w.buffer)
}

/// `v` still has what `w` has, and the text `s` behind it.
#[verifier::opaque]
pub open spec fn adds(v: World, w: World, s: Seq<char>) -> bool {
    embeds(stream(w) + line_laws::solid(s), stream(v))
}

proof fn lemma_adds_twice(u: World, v: World, w: World, s: Seq<char>, t: Seq<char>)
    requires
        adds(v, w, s),
        adds(u, v, t),
    ensures
        adds(u, w, s + t),
{
    reveal(adds);
    line_laws::lemma_solid_concat(s, t);
    lemma_embeds_self(line_laws::solid(t));
    lemma_embeds_concat(
        stream(w) + line_laws::solid(s),
        stream(v),
        line_laws::solid(t),
        line_laws::solid(t),
    );
    assert(stream(w) + line_laws::solid(s) + line_laws::solid(t) =~= stream(w)
        + line_laws::solid(s + t));
    lemma_embeds_twice(stream(w) + line_laws::solid(s + t), stream(v) + line_laws::solid(t), stream(u));
}

/// What is still there when nothing is added to it.
proof fn lemma_adds_then_keeps(u: World, v: World, w: World, s: Seq<char>)
    requires
        adds(v, w, s),
        adds(u, v, Seq::empty()),
    ensures
        adds(u, w, s),
{
    lemma_adds_twice(u, v, w, s, Seq::empty());
    assert(s + Seq::<char>::empty() =~= s);
}

proof fn lemma_keeps_then_adds(u: World, v: World, w: World, s: Seq<char>)
    requires
        adds(v, w, Seq::empty()),
        adds(u, v, s),
    ensures
        adds(u, w, s),
{
    lemma_adds_twice(u, v, w, Seq::empty(), s);
    assert(Seq::<char>::empty() + s =~= s);
}

/// What adds a text adds no less than none of it.
proof fn lemma_adds_less(v: World, w: World, s: Seq<char>, t: Seq<char>)
    requires
        adds(v, w, s),
        embeds(line_laws::solid(t), line_laws::solid(s)),
    ensures
        adds(v, w, t),
{
    reveal(adds);
    lemma_embeds_self(stream(w));
    lemma_embeds_concat(stream(w), stream(w), line_laws::solid(t), line_laws::solid(s));
    lemma_embeds_twice(
        stream(w) + line_laws::solid(t),
        stream(w) + line_laws::solid(s),
        stream(v),
    );
}

proof fn lemma_adds_none(v: World, w: World, s: Seq<char>)
    requires
        adds(v, w, s),
    ensures
        adds(v, w, Seq::empty()),
{
    lemma_adds_less(v, w, s, Seq::empty());
}

/// Neither the output nor the buffer differs.
proof fn lemma_same_adds(v: World, w: World)
    requires
        v.out == w.out,
        v.buffer == w.buffer,
    ensures
        adds(v, w, Seq::empty()),
{
    reveal(adds);
    assert(stream(w) + line_laws::solid(Seq::empty()) =~= stream(w));
    lemma_embeds_self(stream(w));
}

/// Text goes into the buffer.
proof fn lemma_buffer_adds(w: World, s: Seq<char>)
    ensures
        adds((World { buffer: w.buffer + s, ..w }), w, s),
{
    reveal(adds);
    line_laws::lemma_solid_concat(w.buffer, s);
    let v = World { buffer: w.buffer + s, ..w };
    assert(stream(v) =~= stream(w) + line_laws::solid(s));
    lemma_embeds_self(stream(v));
}

/// A line that is written out stands in the output, with what comes before it.
proof fn lemma_emit_out(w: World, l: int, content: Seq<char>)
    ensures
        embeds(
            line_laws::solid(w.out) + line_laws::solid(content),
            line_laws::solid(line::emit(w, l, content).out),
        ),
{
    let line = w.lines[l];
    let nl = if w.need_nl {
        seq!['\n']
    } else {
        Seq::empty()
    };
    let wrap = if line.explicit_wrap {
        seq![' ', '\\']
    } else {
        Seq::empty()
    };
    let before = nl + line::lead(line);
    let body = text::trim_end(content);
    let v = line::emit(w, l, content);
    assert(v.out =~= w.out + (before + body + wrap));
    line_laws::lemma_solid_concat(w.out, before + body + wrap);
    line_laws::lemma_solid_concat(before + body, wrap);
    line_laws::lemma_solid_concat(before, body);
    line_laws::lemma_solid_trim_end(content);
    lemma_embeds_self(line_laws::solid(content));
    lemma_embeds_within(
        line_laws::solid(content),
        line_laws::solid(before),
        line_laws::solid(body),
        line_laws::solid(wrap),
    );
    lemma_embeds_self(line_laws::solid(w.out));
    lemma_embeds_concat(
        line_laws::solid(w.out),
        line_laws::solid(w.out),
        line_laws::solid(content),
        line_laws::solid(before + body + wrap),
    );
}

/// The buffer is written out.
proof fn lemma_emit_adds(w: World, l: int)
    ensures
        adds(line::emit(w, l, w.buffer), w, Seq::empty()),
{
    reveal(adds);
    lemma_emit_out(w, l, w.buffer);
    let v = line::emit(w, l, w.buffer);
    assert(stream(v) =~= line_laws::solid(v.out));
    assert(stream(w) + line_laws::solid(Seq::empty()) =~= stream(w));
}

proof fn lemma_flushed_adds(w: World, l: int)
    ensures
        adds(line::flushed(w, l), w, Seq::empty()),
{
    lemma_same_adds(w, w);
    lemma_emit_adds(w, l);
}

proof fn lemma_unbreakable_adds(w: World, l: int, s: Seq<char>)
    ensures
        adds(line::unbreakable(w, l, s), w, s),
{
    let v = line::flushed(w, l);
    lemma_flushed_adds(w, l);
    lemma_buffer_adds(w, s);
    lemma_buffer_adds(v, s);
    lemma_keeps_then_adds(World { buffer: v.buffer + s, ..v }, v, w, s);
}

proof fn lemma_whitespace_adds(w: World, l: int, s: Seq<char>)
    ensures
        adds(line::whitespace(w, l, s), w, Seq::empty()),
{
    lemma_flushed_adds(w, l);
    lemma_buffer_adds(w, s);
    lemma_adds_none(World { buffer: w.buffer + s, ..w }, w, s);
}

proof fn lemma_concat_last(lines: Seq<Seq<char>>)
    requires
        lines.len() > 0,
    ensures
        line_laws::concat(lines) == line_laws::concat(lines.drop_last()) + lines.last(),
    decreases lines.len(),
{
    if lines.len() == 1 {
        reveal_with_fuel(line_laws::concat, 2);
        assert(line_laws::concat(lines) =~= line_laws::concat(lines.drop_last()) + lines.last());
    } else {
        assert(lines.drop_first().drop_last() =~= lines.drop_last().drop_first());
        lemma_concat_last(lines.drop_first());
        assert(line_laws::concat(lines) =~= line_laws::concat(lines.drop_last()) + lines.last());
    }
}

proof fn lemma_emit_all_out(w: World, l: int, contents: Seq<Seq<char>>)
    ensures
        embeds(
            line_laws::solid(w.out) + line_laws::solid(line_laws::concat(contents)),
            line_laws::solid(line::emit_all(w, l, contents).out),
        ),
    decreases contents.len(),
{
    if contents.len() == 0 {
        assert(line_laws::solid(w.out) + line_laws::solid(line_laws::concat(contents))
            =~= line_laws::solid(w.out));
        lemma_embeds_self(line_laws::solid(w.out));
    } else {
        let some = contents.drop_last();
        let last = contents.last();
        let v = line::emit_all(w, l, some);
        lemma_emit_all_out(w, l, some);
        lemma_emit_out(v, l, last);
        lemma_concat_last(contents);
        line_laws::lemma_solid_concat(line_laws::concat(some), last);
        lemma_embeds_self(line_laws::solid(last));
        let head = line_laws::solid(w.out) + line_laws::solid(line_laws::concat(some));
        lemma_embeds_concat(
            head,
            line_laws::solid(v.out),
            line_laws::solid(last),
            line_laws::solid(last),
        );
        assert(head + line_laws::solid(last) =~= line_laws::solid(w.out) + line_laws::solid(
            line_laws::concat(contents),
        ));
        lemma_embeds_twice(
            head + line_laws::solid(last),
            line_laws::solid(v.out) + line_laws::solid(last),
            line_laws::solid(line::emit(v, l, last).out),
        );
    }
}

proof fn lemma_breakable_adds(w: World, l: int, s: Seq<char>)
    ensures
        adds(line::breakable(w, l, s), w, s),
{
    reveal(adds);
    let t = if w.buffer.len() == 0 {
        text::trim(s)
    } else {
        s
    };
    let width = line::width(w.lines[l]);
    let wrapped = line::wrap(w.buffer, t, width);
    let v = line::breakable(w, l, s);
    let whole = line_laws::concat(wrapped.lines);
    line_laws::lemma_solid_trim(s);
    line_laws::law_wrap_keeps_text(w.buffer, t, width);
    line_laws::lemma_solid_concat(w.buffer, t);
    line_laws::lemma_solid_concat(whole, wrapped.rest);
    lemma_emit_all_out(w, l, wrapped.lines);
    lemma_embeds_self(line_laws::solid(wrapped.rest));
    lemma_embeds_concat(
        line_laws::solid(w.out) + line_laws::solid(whole),
        line_laws::solid(v.out),
        line_laws::solid(wrapped.rest),
        line_laws::solid(wrapped.rest),
    );
    let out = line_laws::solid(w.out);
    assert(out + line_laws::solid(whole) + line_laws::solid(wrapped.rest) =~= out + (
    line_laws::solid(whole) + line_laws::solid(wrapped.rest)));
    assert(stream(w) + line_laws::solid(t) =~= out + (line_laws::solid(w.buffer)
        + line_laws::solid(t)));
}

proof fn lemma_line_adds(w: World, l: int, s: Seq<char>)
    ensures
        adds(line::flushed(line::unbreakable(w, l, s), l), w, s),
{
    let v = line::unbreakable(w, l, s);
    lemma_unbreakable_adds(w, l, s);
    lemma_flushed_adds(v, l);
    lemma_adds_then_keeps(line::flushed(v, l), v, w, s);
}

proof fn lemma_code_lines_add(w: World, l: int, lines: Seq<Seq<char>>)
    ensures
        adds(stack::code_lines(w, l, lines), w, line_laws::concat(lines)),
    decreases lines.len(),
{
    if lines.len() == 0 {
        lemma_same_adds(w, w);
    } else {
        let v = stack::code_lines(w, l, lines.drop_last());
        lemma_code_lines_add(w, l, lines.drop_last());
        lemma_line_adds(v, l, lines.last());
        lemma_concat_last(lines);
        lemma_adds_twice(
            stack::code_lines(w, l, lines),
            v,
            w,
            line_laws::concat(lines.drop_last()),
            lines.last(),
        );
    }
}

/// The lines of a text hold its solid characters.
proof fn lemma_lines_solid(s: Seq<char>)
    ensures
        line_laws::solid(line_laws::concat(text::text_lines(s))) == line_laws::solid(s),
    decreases s.len(),
{
    let lines = text::text_lines(s);
    if s.len() > 0 {
        text::lemma_find(s, '\n');
        let k = text::find(s, '\n') as int;
        if k >= s.len() {
            assert(lines.drop_first() =~= Seq::<Seq<char>>::empty());
            reveal_with_fuel(line_laws::concat, 2);
            assert(line_laws::concat(lines) =~= s);
        } else {
            let head = s.take(k);
            let line = text::strip_carriage_return(head);
            let rest = s.skip(k + 1);
            lemma_lines_solid(rest);
            assert(lines.drop_first() =~= text::text_lines(rest));
            line_laws::lemma_solid_concat(line, line_laws::concat(text::text_lines(rest)));
            assert(line_laws::solid(line) == line_laws::solid(head));
            assert(s =~= s.take(k + 1) + rest);
            line_laws::lemma_solid_concat(s.take(k + 1), rest);
            assert(s.take(k + 1).drop_last() =~= head);
            assert(s.take(k + 1).last() == '\n');
        }
    }
}

proof fn lemma_image_adds(w: World, l: int, url: Seq<char>, title: Seq<char>)
    ensures
        adds(stack::image(w, l, url, title), w, Seq::empty()),
{
    let a = line::unbreakable(w, l, "![]("@ + url);
    lemma_unbreakable_adds(w, l, "![]("@ + url);
    lemma_adds_none(a, w, "![]("@ + url);
    let last = if title.len() == 0 {
        ")"@
    } else {
        "\")"@
    };
    let b = line::unbreakable(a, l, " \""@);
    let c = line::breakable(b, l, title);
    lemma_unbreakable_adds(a, l, " \""@);
    lemma_adds_none(b, a, " \""@);
    lemma_breakable_adds(b, l, title);
    lemma_adds_none(c, b, title);
    lemma_adds_then_keeps(c, b, a, Seq::empty());
    lemma_same_adds(a, a);
    let d = if title.len() == 0 {
        a
    } else {
        c
    };
    lemma_unbreakable_adds(d, l, last);
    let e = line::unbreakable(d, l, last);
    lemma_adds_none(e, d, last);
    lemma_adds_then_keeps(e, d, a, Seq::empty());
    lemma_adds_then_keeps(e, a, w, Seq::empty());
}

/// The text that an event brings.
pub open spec fn text_of(e: EventView) -> Seq<char> {
    match e {
        EventView::Text(s) => s,
        EventView::Code(s) => s,
        _ => Seq::empty(),
    }
}

/// The text that events bring, in order.
pub open spec fn texts_of(events: Seq<EventView>) -> Seq<char>
    decreases events.len(),
{
    if events.len() == 0 {
        Seq::empty()
    } else {
        texts_of(events.drop_last()) + text_of(events.last())
    }
}

proof fn lemma_code_span_adds(w: World, l: int, s: Seq<char>)
    ensures
        adds(line::unbreakable(w, l, stack::code_span(s)), w, s),
{
    let quoted = stack::code_span(s);
    line_laws::lemma_solid_concat("`"@ + s, "`"@);
    line_laws::lemma_solid_concat("`"@, s);
    lemma_embeds_self(line_laws::solid(s));
    lemma_embeds_within(
        line_laws::solid(s),
        line_laws::solid("`"@),
        line_laws::solid(s),
        line_laws::solid("`"@),
    );
    lemma_unbreakable_adds(w, l, quoted);
    lemma_adds_less(line::unbreakable(w, l, quoted), w, quoted, s);
}

proof fn lemma_inline_tag_adds(w: World, l: int, tag: TagView, root: bool)
    ensures
        stack::inline_start(w, l, tag, root) matches Some((v, res)) ==> adds(v, w, Seq::empty()),
        stack::inline_tag(w, l, tag) matches Some((v, res)) ==> adds(v, w, Seq::empty()),
{
    match tag {
        TagView::Image { url, title } => {
            lemma_image_adds(w, l, url, title);
        },
        _ => {
            let start = match tag {
                TagView::Emphasis => "_"@,
                TagView::Strong => "**"@,
                TagView::Strikethrough => "~"@,
                _ => "["@,
            };
            lemma_unbreakable_adds(w, l, start);
            lemma_adds_none(line::unbreakable(w, l, start), w, start);
        },
    }
}

proof fn lemma_inline_adds(el: InlineView, w: World, e: EventView)
    ensures
        stack::inline_step(el, w, e) matches Some((v, res)) ==> adds(v, w, text_of(e)),
{
    let l = el.line;
    match e {
        EventView::End => {
            lemma_same_adds(w, w);
            lemma_flushed_adds(w, l);
            if let Some(b) = el.end_bound {
                lemma_unbreakable_adds(w, l, b);
                lemma_adds_none(line::unbreakable(w, l, b), w, b);
                lemma_line_adds(w, l, b);
                lemma_adds_none(line::flushed(line::unbreakable(w, l, b), l), w, b);
            }
        },
        EventView::Start(tag) => {
            lemma_inline_tag_adds(w, l, tag, false);
        },
        EventView::Text(s) => {
            lemma_breakable_adds(w, l, s);
        },
        EventView::Code(s) => {
            lemma_code_span_adds(w, l, s);
        },
        _ => {
            lemma_whitespace_adds(w, l, " "@);
        },
    }
}

proof fn lemma_block_ev_adds(el: BlockView, w: World)
    ensures
        stack::block_ev(el, w) matches Some((next, v)) ==> adds(v, w, Seq::empty()),
{
    let v = if el.was_inline {
        line::flushed(w, el.line)
    } else {
        w
    };
    lemma_same_adds(w, w);
    lemma_flushed_adds(w, el.line);
    if v.buffer.len() == 0 {
        assert(v.buffer =~= Seq::<char>::empty());
        lemma_emit_adds(v, el.line);
        lemma_adds_then_keeps(line::emit(v, el.line, Seq::empty()), v, w, Seq::empty());
    }
}

proof fn lemma_block_open_adds(w: World, l: int, tag: TagView)
    ensures
        stack::block_open(w, l, tag) matches Some((v, res)) ==> adds(v, w, Seq::empty()),
{
    if let Some((u, res)) = stack::block_open(w, l, tag) {
        match tag {
            TagView::CodeBlock(lang) => {
                let v = line::unbreakable(w, l, stack::fence(lang));
                lemma_unbreakable_adds(w, l, stack::fence(lang));
                lemma_adds_none(v, w, stack::fence(lang));
                lemma_same_adds(u, v);
                lemma_adds_then_keeps(u, v, w, Seq::empty());
            },
            _ => {
                lemma_same_adds(u, w);
            },
        }
    }
}

proof fn lemma_block_adds(el: BlockView, w: World, e: EventView)
    ensures
        stack::block_step(el, w, e) matches Some((next, v, res)) ==> adds(v, w, text_of(e)),
{
    let l = el.line;
    lemma_same_adds(w, w);
    match e {
        EventView::Start(tag) => {
            lemma_inline_tag_adds(w, l, tag, true);
            lemma_unbreakable_adds(w, l, "["@);
            lemma_adds_none(line::unbreakable(w, l, "["@), w, "["@);
            lemma_block_ev_adds(el, w);
            if let Some((next, v)) = stack::block_ev(el, w) {
                lemma_block_open_adds(v, l, tag);
                if let Some((u, res)) = stack::block_open(v, l, tag) {
                    lemma_adds_then_keeps(u, v, w, Seq::empty());
                }
            }
        },
        EventView::End => {
            let v = if el.was_inline {
                line::flushed(w, l)
            } else {
                w
            };
            lemma_flushed_adds(w, l);
            if let Some(b) = el.end_bound {
                let u = line::flushed(line::unbreakable(v, l, b), l);
                lemma_line_adds(v, l, b);
                lemma_adds_none(u, v, b);
                lemma_adds_then_keeps(u, v, w, Seq::empty());
            }
        },
        EventView::Text(s) => {
            lemma_breakable_adds(w, l, s);
        },
        EventView::Code(s) => {
            lemma_code_span_adds(w, l, s);
        },
        _ => {},
    }
}

proof fn lemma_list_adds(l: int, mark: Seq<char>, w: World, e: EventView)
    ensures
        stack::list_step(l, mark, w, e) matches Some((v, res)) ==> adds(v, w, text_of(e)),
{
    if let Some((v, res)) = stack::list_step(l, mark, w, e) {
        lemma_same_adds(v, w);
    }
}

proof fn lemma_code_adds(l: int, w: World, e: EventView)
    ensures
        stack::code_step(l, w, e) matches Some((v, res)) ==> adds(v, w, text_of(e)),
{
    match e {
        EventView::Text(s) => {
            let v = stack::code_lines(w, l, text::text_lines(s));
            lemma_code_lines_add(w, l, text::text_lines(s));
            lemma_lines_solid(s);
            lemma_embeds_self(line_laws::solid(s));
            lemma_adds_less(v, w, line_laws::concat(text::text_lines(s)), s);
        },
        _ => {
            lemma_line_adds(w, l, "```"@);
            lemma_adds_none(line::flushed(line::unbreakable(w, l, "```"@), l), w, "```"@);
        },
    }
}

proof fn lemma_step_adds(el: ElView, w: World, e: EventView)
    ensures
        stack::step(el, w, e) matches Some((top, v, res)) ==> adds(v, w, text_of(e)),
{
    reveal(stack::step);
    match el {
        ElView::Inline(inline) => {
            lemma_inline_adds(inline, w, e);
        },
        ElView::Block(block) => {
            lemma_block_adds(block, w, e);
        },
        ElView::NumberList { count, line } => {
            lemma_list_adds(line, stack::number_mark(count), w, e);
        },
        ElView::BulletList { line } => {
            lemma_list_adds(line, "* "@, w, e);
        },
        ElView::CodeBlock { line } => {
            lemma_code_adds(line, w, e);
        },
    }
}

proof fn lemma_run_adds(m: Machine, events: Seq<EventView>)
    ensures
        render::run(m, events) matches Some(n) ==> adds(n.world, m.world, texts_of(events)),
    decreases events.len(),
{
    if events.len() == 0 {
        lemma_same_adds(m.world, m.world);
    } else {
        lemma_run_adds(m, events.drop_last());
        if let Some(half) = render::run(m, events.drop_last()) {
            reveal(render::advance);
            if half.stack.len() > 0 {
                lemma_step_adds(half.stack.last(), half.world, events.last());
                if let Some(n) = render::advance(half, events.last()) {
                    lemma_adds_twice(
                        n.world,
                        half.world,
                        m.world,
                        texts_of(events.drop_last()),
                        text_of(events.last()),
                    );
                }
            }
        }
    }
}

/// Writing a document anew keeps its text: every solid character of its texts
/// stands in what is written of it, in the same order. While a part is open that
/// has a line to write out, the last of them may still wait for that.
pub proof fn law_text_kept(prefix: Seq<char>, max_width: nat, events: Seq<EventView>)
    ensures
        render::run(render::start(prefix, max_width), events) matches Some(m) ==> {
            &&& embeds(
                line_laws::solid(texts_of(events)),
                line_laws::solid(m.world.out) + line_laws::solid(m.world.buffer),
            )
            &&& !render_laws::some_owes(m.stack) ==> embeds(
                line_laws::solid(texts_of(events)),
                line_laws::solid(m.world.out),
            )
        },
{
    let m0 = render::start(prefix, max_width);
    lemma_run_adds(m0, events);
    render_laws::law_nothing_left(prefix, max_width, events);
    if let Some(m) = render::run(m0, events) {
        reveal(adds);
        let text = line_laws::solid(texts_of(events));
        assert(stream(m0.world) + text =~= text);
        if m.world.buffer.len() == 0 {
            assert(stream(m.world) =~= line_laws::solid(m.world.out));
        }
    }
}

} // verus!
