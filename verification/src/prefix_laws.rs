//! The prefix of a document only moves its lines.
use vstd::prelude::*;
use crate::comment;
use crate::line::{self, LineView, World};
use crate::markdown::{EventView, TagView};
use crate::render::{self, Machine};
use crate::stack::{self, BlockView, ElView, InlineView, ResView};
use crate::text;

verus! {

/// `s` is on one line.
pub open spec fn is_flat(s: Seq<char>) -> bool {
    !s.contains('\n')
}

/// Lines, each behind `prefix`.
pub open spec fn put_behind(prefix: Seq<char>, lines: Seq<Seq<char>>) -> Seq<Seq<char>> {
    lines.map_values(|l: Seq<char>| prefix + l)
}

/// Each of the lines is one.
pub open spec fn all_flat(lines: Seq<Seq<char>>) -> bool {
    forall|i: int| 0 <= i < lines.len() ==> is_flat(#[trigger] lines[i])
}

/// A line state whose lines come behind `prefix` and what they came behind before.
pub open spec fn shifted(prefix: Seq<char>, line: LineView) -> LineView {
    LineView {
        first_prefix: match line.first_prefix {
            Some(f) => Some(prefix + f),
            None => None,
        },
        prefix: prefix + line.prefix,
        ..line
    }
}

/// What comes before the lines of a line state is on one line.
pub open spec fn is_flat_line(line: LineView) -> bool {
    &&& is_flat(line.prefix)
    &&& line.first_prefix matches Some(f) ==> is_flat(f)
}

/// `v` is `w` with all lines behind `prefix`, those written and those to come. If
/// `flat`, no line holds a line feed.
#[verifier::opaque]
pub open spec fn is_moved(prefix: Seq<char>, v: World, w: World, flat: bool) -> bool {
    &&& v.lines == w.lines.map_values(|l: LineView| shifted(prefix, l))
    &&& v.buffer == w.buffer
    &&& v.need_nl == w.need_nl
    &&& exists|lines: Seq<Seq<char>>|
        w.out == #[trigger] comment::join(lines) && v.out == comment::join(
            put_behind(prefix, lines),
        ) && w.need_nl == (lines.len() > 0) && (flat ==> all_flat(lines))
    &&& flat ==> is_flat(w.buffer)
    &&& flat ==> forall|i: int| 0 <= i < w.lines.len() ==> is_flat_line(#[trigger] w.lines[i])
}

proof fn lemma_flat_concat(a: Seq<char>, b: Seq<char>)
    ensures
        is_flat(a + b) <==> is_flat(a) && is_flat(b),
{
    if is_flat(a) && is_flat(b) {
        assert forall|i: int| 0 <= i < (a + b).len() implies (a + b)[i] != '\n' by {
            if i < a.len() {
                assert(a.contains(a[i]));
            } else {
                assert(b.contains(b[i - a.len()]));
            }
        }
    }
    if a.contains('\n') {
        let i = choose|i: int| 0 <= i < a.len() && a[i] == '\n';
        assert((a + b)[i] == '\n');
    }
    if b.contains('\n') {
        let i = choose|i: int| 0 <= i < b.len() && b[i] == '\n';
        assert((a + b)[a.len() + i] == '\n');
    }
}

proof fn lemma_flat_part(s: Seq<char>, a: int, b: int)
    requires
        is_flat(s),
        0 <= a <= b <= s.len(),
    ensures
        is_flat(s.subrange(a, b)),
{
    let t = s.subrange(a, b);
    if t.contains('\n') {
        let i = choose|i: int| 0 <= i < t.len() && t[i] == '\n';
        assert(s[a + i] == '\n');
    }
}

proof fn lemma_flat_trim_end(s: Seq<char>)
    requires
        is_flat(s),
    ensures
        is_flat(text::trim_end(s)),
    decreases s.len(),
{
    if s.len() > 0 && text::white_space(s.last()) {
        lemma_flat_part(s, 0, s.len() - 1);
        lemma_flat_trim_end(s.drop_last());
    }
}

proof fn lemma_flat_trim_start(s: Seq<char>)
    requires
        is_flat(s),
    ensures
        is_flat(text::trim_start(s)),
    decreases s.len(),
{
    if s.len() > 0 && text::white_space(s[0]) {
        lemma_flat_part(s, 1, s.len() as int);
        lemma_flat_trim_start(s.drop_first());
    }
}

proof fn lemma_flat_trim(s: Seq<char>)
    requires
        is_flat(s),
    ensures
        is_flat(text::trim(s)),
{
    lemma_flat_trim_end(s);
    lemma_flat_trim_start(text::trim_end(s));
}

proof fn lemma_moved_lines(prefix: Seq<char>, v: World, w: World, flat: bool, l: int)
    requires
        is_moved(prefix, v, w, flat),
        0 <= l < w.lines.len(),
    ensures
        v.lines.len() == w.lines.len(),
        v.lines[l] == shifted(prefix, w.lines[l]),
        v.buffer == w.buffer,
        stack::writable(v, l) == stack::writable(w, l),
        line::width(v.lines[l]) == line::width(w.lines[l]),
        flat ==> is_flat(w.buffer),
{
    reveal(is_moved);
}

/// The same buffer.
proof fn lemma_buffer_moved(prefix: Seq<char>, v: World, w: World, flat: bool, b: Seq<char>)
    requires
        is_moved(prefix, v, w, flat),
        flat ==> is_flat(b),
    ensures
        is_moved(prefix, World { buffer: b, ..v }, World { buffer: b, ..w }, flat),
{
    reveal(is_moved);
}

proof fn lemma_join_push(lines: Seq<Seq<char>>, more: Seq<char>)
    ensures
        comment::join(lines.push(more)) == (if lines.len() == 0 {
            more
        } else {
            comment::join(lines).push('\n') + more
        }),
{
    assert(lines.push(more).drop_last() =~= lines);
}

proof fn lemma_emit_moved(
    prefix: Seq<char>,
    v: World,
    w: World,
    flat: bool,
    l: int,
    content: Seq<char>,
)
    requires
        is_moved(prefix, v, w, flat),
        0 <= l < w.lines.len(),
        flat ==> is_flat(content),
    ensures
        is_moved(prefix, line::emit(v, l, content), line::emit(w, l, content), flat),
{
    reveal(is_moved);
    let lines = choose|lines: Seq<Seq<char>>|
        w.out == #[trigger] comment::join(lines) && v.out == comment::join(
            put_behind(prefix, lines),
        ) && w.need_nl == (lines.len() > 0) && (flat ==> all_flat(lines));
    let more = line::written(w.lines[l], content);
    assert(v.lines[l] == shifted(prefix, w.lines[l]));
    assert(line::lead(v.lines[l]) == prefix + line::lead(w.lines[l]));
    assert(line::written(v.lines[l], content) =~= prefix + more);
    let all = lines.push(more);
    assert(put_behind(prefix, all) =~= put_behind(prefix, lines).push(prefix + more));
    lemma_join_push(lines, more);
    lemma_join_push(put_behind(prefix, lines), prefix + more);
    let v2 = line::emit(v, l, content);
    let w2 = line::emit(w, l, content);
    assert(w2.out =~= comment::join(all));
    assert(v2.out =~= comment::join(put_behind(prefix, all)));
    assert(v2.lines =~= w2.lines.map_values(|l: LineView| shifted(prefix, l)));
    if flat {
        let wrap = if w.lines[l].explicit_wrap {
            seq![' ', '\\']
        } else {
            Seq::empty()
        };
        assert(is_flat_line(w.lines[l]));
        assert(is_flat(wrap));
        lemma_flat_trim_end(content);
        lemma_flat_concat(line::lead(w.lines[l]), text::trim_end(content));
        lemma_flat_concat(line::lead(w.lines[l]) + text::trim_end(content), wrap);
        assert(is_flat(more));
        assert forall|i: int| 0 <= i < all.len() implies is_flat(#[trigger] all[i]) by {
            if i < lines.len() {
                assert(is_flat(lines[i]));
            }
        }
        assert forall|i: int| 0 <= i < w2.lines.len() implies is_flat_line(
            #[trigger] w2.lines[i],
        ) by {
            assert(is_flat_line(w.lines[i]));
        }
    }
}

proof fn lemma_flushed_moved(prefix: Seq<char>, v: World, w: World, flat: bool, l: int)
    requires
        is_moved(prefix, v, w, flat),
        0 <= l < w.lines.len(),
    ensures
        is_moved(prefix, line::flushed(v, l), line::flushed(w, l), flat),
        line::flushed(w, l).lines.len() == w.lines.len(),
{
    lemma_moved_lines(prefix, v, w, flat, l);
    lemma_emit_moved(prefix, v, w, flat, l, w.buffer);
}

proof fn lemma_unbreakable_moved(
    prefix: Seq<char>,
    v: World,
    w: World,
    flat: bool,
    l: int,
    s: Seq<char>,
)
    requires
        is_moved(prefix, v, w, flat),
        0 <= l < w.lines.len(),
        flat ==> is_flat(s),
    ensures
        is_moved(prefix, line::unbreakable(v, l, s), line::unbreakable(w, l, s), flat),
        line::unbreakable(w, l, s).lines.len() == w.lines.len(),
{
    lemma_moved_lines(prefix, v, w, flat, l);
    lemma_flushed_moved(prefix, v, w, flat, l);
    let over = text::byte_len(w.buffer) + text::byte_len(s) > line::width(w.lines[l]);
    let v1 = if over {
        line::flushed(v, l)
    } else {
        v
    };
    let w1 = if over {
        line::flushed(w, l)
    } else {
        w
    };
    lemma_moved_lines(prefix, v1, w1, flat, l);
    lemma_flat_concat(w1.buffer, s);
    lemma_buffer_moved(prefix, v1, w1, flat, w1.buffer + s);
}

proof fn lemma_whitespace_moved(
    prefix: Seq<char>,
    v: World,
    w: World,
    flat: bool,
    l: int,
    s: Seq<char>,
)
    requires
        is_moved(prefix, v, w, flat),
        0 <= l < w.lines.len(),
        flat ==> is_flat(s),
    ensures
        is_moved(prefix, line::whitespace(v, l, s), line::whitespace(w, l, s), flat),
{
    lemma_moved_lines(prefix, v, w, flat, l);
    lemma_flushed_moved(prefix, v, w, flat, l);
    lemma_flat_concat(w.buffer, s);
    if flat ==> is_flat(w.buffer + s) {
        lemma_buffer_moved(prefix, v, w, flat, w.buffer + s);
    }
}

proof fn lemma_emit_all_moved(
    prefix: Seq<char>,
    v: World,
    w: World,
    flat: bool,
    l: int,
    contents: Seq<Seq<char>>,
)
    requires
        is_moved(prefix, v, w, flat),
        0 <= l < w.lines.len(),
        flat ==> all_flat(contents),
    ensures
        is_moved(prefix, line::emit_all(v, l, contents), line::emit_all(w, l, contents), flat),
        line::emit_all(w, l, contents).lines.len() == w.lines.len(),
    decreases contents.len(),
{
    if contents.len() > 0 {
        let some = contents.drop_last();
        if flat {
            assert(is_flat(contents[contents.len() - 1]));
            assert forall|i: int| 0 <= i < some.len() implies is_flat(#[trigger] some[i]) by {
                assert(is_flat(contents[i]));
            }
        }
        lemma_emit_all_moved(prefix, v, w, flat, l, some);
        lemma_emit_moved(
            prefix,
            line::emit_all(v, l, some),
            line::emit_all(w, l, some),
            flat,
            l,
            contents.last(),
        );
    }
}

proof fn lemma_wrap_flat(buffer: Seq<char>, s: Seq<char>, width: int)
    requires
        is_flat(buffer),
        is_flat(s),
    ensures
        all_flat(line::wrap(buffer, s, width).lines),
        is_flat(line::wrap(buffer, s, width).rest),
    decreases s.len(), (if buffer.len() > 0 { 1int } else { 0int }),
{
    let w = line::wrap(buffer, s, width);
    let used = text::byte_len(buffer) as int;
    lemma_flat_concat(buffer, s);
    if s.len() > 0 && used + text::byte_len(s) > width {
        line::lemma_last_break(used, s, width, s.len() as int);
        let found = line::last_break(used, s, width, s.len() as int);
        if found is Some || buffer.len() > 0 {
            let (line, rest) = match found {
                Some(b) => (buffer + s.take(b), s.skip(b)),
                None => (buffer, s),
            };
            if let Some(b) = found {
                lemma_flat_part(s, 0, b);
                lemma_flat_part(s, b, s.len() as int);
                assert(s.take(b) =~= s.subrange(0, b));
                assert(s.skip(b) =~= s.subrange(b, s.len() as int));
                lemma_flat_concat(buffer, s.take(b));
            }
            line::lemma_trim_len(rest);
            lemma_flat_trim(rest);
            let more = line::wrap(Seq::empty(), text::trim(rest), width);
            lemma_wrap_flat(Seq::empty(), text::trim(rest), width);
            assert forall|i: int| 0 <= i < w.lines.len() implies is_flat(#[trigger] w.lines[i]) by {
                if i > 0 {
                    assert(w.lines[i] == more.lines[i - 1]);
                }
            }
        }
    }
}

proof fn lemma_breakable_moved(
    prefix: Seq<char>,
    v: World,
    w: World,
    flat: bool,
    l: int,
    s: Seq<char>,
)
    requires
        is_moved(prefix, v, w, flat),
        0 <= l < w.lines.len(),
        flat ==> is_flat(s),
    ensures
        is_moved(prefix, line::breakable(v, l, s), line::breakable(w, l, s), flat),
        line::breakable(w, l, s).lines.len() == w.lines.len(),
{
    lemma_moved_lines(prefix, v, w, flat, l);
    let t = if w.buffer.len() == 0 {
        text::trim(s)
    } else {
        s
    };
    let width = line::width(w.lines[l]);
    if flat {
        lemma_flat_trim(s);
        lemma_wrap_flat(w.buffer, t, width);
    }
    let wrapped = line::wrap(w.buffer, t, width);
    lemma_emit_all_moved(prefix, v, w, flat, l, wrapped.lines);
    lemma_buffer_moved(
        prefix,
        line::emit_all(v, l, wrapped.lines),
        line::emit_all(w, l, wrapped.lines),
        flat,
        wrapped.rest,
    );
}

/// A further line state, made of the one at `l`.
proof fn lemma_with_line_moved(
    prefix: Seq<char>,
    v: World,
    w: World,
    flat: bool,
    l: int,
    first: Option<Seq<char>>,
    more: Seq<char>,
    explicit_wrap: bool,
)
    requires
        is_moved(prefix, v, w, flat),
        0 <= l < w.lines.len(),
        flat ==> is_flat(more) && (first matches Some(f) ==> is_flat(f)),
    ensures
        is_moved(
            prefix,
            line::with_line(v, l, line::indented(v.lines[l], first, more, explicit_wrap)),
            line::with_line(w, l, line::indented(w.lines[l], first, more, explicit_wrap)),
            flat,
        ),
        is_moved(
            prefix,
            line::with_line(v, l, v.lines[l]),
            line::with_line(w, l, w.lines[l]),
            flat,
        ),
{
    reveal(is_moved);
    let a = line::indented(v.lines[l], first, more, explicit_wrap);
    let b = line::indented(w.lines[l], first, more, explicit_wrap);
    assert(a.prefix =~= prefix + b.prefix);
    match (w.lines[l].first_prefix, first) {
        (None, Some(f)) => {
            assert(prefix + w.lines[l].prefix + f =~= prefix + (w.lines[l].prefix + f));
        },
        (Some(g), Some(f)) => {
            assert(prefix + g + f =~= prefix + (g + f));
        },
        _ => {},
    }
    assert(a == shifted(prefix, b));
    let shift = |l: LineView| shifted(prefix, l);
    assert(line::with_line(v, l, a).lines =~= line::with_line(w, l, b).lines.map_values(shift));
    assert(line::with_line(v, l, v.lines[l]).lines =~= line::with_line(
        w,
        l,
        w.lines[l],
    ).lines.map_values(shift));
    if flat {
        let line = w.lines[l];
        assert(is_flat_line(line));
        lemma_flat_concat(line.prefix, more);
        if let Some(f) = first {
            lemma_flat_concat(line.prefix, f);
            if let Some(g) = line.first_prefix {
                lemma_flat_concat(g, f);
            }
        }
        let w1 = line::with_line(w, l, b);
        let w2 = line::with_line(w, l, line);
        assert forall|i: int| 0 <= i < w1.lines.len() implies is_flat_line(
            #[trigger] w1.lines[i],
        ) by {
            if i < w.lines.len() {
                assert(is_flat_line(w.lines[i]));
            }
        }
        assert forall|i: int| 0 <= i < w2.lines.len() implies is_flat_line(
            #[trigger] w2.lines[i],
        ) by {
            if i < w.lines.len() {
                assert(is_flat_line(w.lines[i]));
            }
        }
    }
}

/// What is written around texts is on one line.
proof fn lemma_bounds_flat()
    ensures
        is_flat("![]("@),
        is_flat(")"@),
        is_flat(" \""@),
        is_flat("\")"@),
        is_flat("_"@),
        is_flat("**"@),
        is_flat("~"@),
        is_flat("["@),
        is_flat("]("@),
        is_flat("`"@),
        is_flat(" "@),
        is_flat("```"@),
        is_flat("  "@),
        is_flat(">"@),
        is_flat("   "@),
        is_flat("* "@),
        is_flat(". "@),
{
    reveal_strlit("![](");
    reveal_strlit(")");
    reveal_strlit(" \"");
    reveal_strlit("\")");
    reveal_strlit("_");
    reveal_strlit("**");
    reveal_strlit("~");
    reveal_strlit("[");
    reveal_strlit("](");
    reveal_strlit("`");
    reveal_strlit(" ");
    reveal_strlit("```");
    reveal_strlit("  ");
    reveal_strlit(">");
    reveal_strlit("   ");
    reveal_strlit("* ");
    reveal_strlit(". ");
}

/// The event brings no line feed with it.
pub open spec fn is_flat_event(e: EventView) -> bool {
    match e {
        EventView::Text(s) => is_flat(s),
        EventView::Code(s) => is_flat(s),
        EventView::Start(TagView::CodeBlock(Some(lang))) => is_flat(lang),
        EventView::Start(TagView::Link { url, title }) => is_flat(url) && is_flat(title),
        EventView::Start(TagView::Image { url, title }) => is_flat(url) && is_flat(title),
        _ => true,
    }
}

/// What is written at the end of a part is on one line.
pub open spec fn is_flat_el(el: ElView) -> bool {
    match el {
        ElView::Inline(inline) => inline.end_bound matches Some(b) ==> is_flat(b),
        ElView::Block(block) => block.end_bound matches Some(b) ==> is_flat(b),
        _ => true,
    }
}

/// The same comes of both, behind the prefix in one of them.
spec fn are_alike(
    prefix: Seq<char>,
    a: Option<(World, ResView)>,
    b: Option<(World, ResView)>,
    flat: bool,
) -> bool {
    match (a, b) {
        (None, None) => true,
        (Some((v, r)), Some((w, s))) => {
            &&& r == s
            &&& is_moved(prefix, v, w, flat)
            &&& flat ==> (s matches ResView::Push(el) ==> is_flat_el(el))
        },
        _ => false,
    }
}

proof fn lemma_line_moved(prefix: Seq<char>, v: World, w: World, flat: bool, l: int, s: Seq<char>)
    requires
        is_moved(prefix, v, w, flat),
        0 <= l < w.lines.len(),
        flat ==> is_flat(s),
    ensures
        is_moved(
            prefix,
            line::flushed(line::unbreakable(v, l, s), l),
            line::flushed(line::unbreakable(w, l, s), l),
            flat,
        ),
        line::flushed(line::unbreakable(w, l, s), l).lines.len() == w.lines.len(),
{
    lemma_unbreakable_moved(prefix, v, w, flat, l, s);
    lemma_flushed_moved(
        prefix,
        line::unbreakable(v, l, s),
        line::unbreakable(w, l, s),
        flat,
        l,
    );
}

proof fn lemma_code_lines_moved(
    prefix: Seq<char>,
    v: World,
    w: World,
    flat: bool,
    l: int,
    lines: Seq<Seq<char>>,
)
    requires
        is_moved(prefix, v, w, flat),
        0 <= l < w.lines.len(),
        flat ==> all_flat(lines),
    ensures
        is_moved(prefix, stack::code_lines(v, l, lines), stack::code_lines(w, l, lines), flat),
        stack::code_lines(w, l, lines).lines.len() == w.lines.len(),
    decreases lines.len(),
{
    if lines.len() > 0 {
        let some = lines.drop_last();
        if flat {
            assert(is_flat(lines[lines.len() - 1]));
            assert forall|i: int| 0 <= i < some.len() implies is_flat(#[trigger] some[i]) by {
                assert(is_flat(lines[i]));
            }
        }
        lemma_code_lines_moved(prefix, v, w, flat, l, some);
        lemma_line_moved(
            prefix,
            stack::code_lines(v, l, some),
            stack::code_lines(w, l, some),
            flat,
            l,
            lines.last(),
        );
    }
}

/// The lines of a text are lines.
proof fn lemma_text_lines_flat(s: Seq<char>)
    ensures
        all_flat(text::text_lines(s)),
    decreases s.len(),
{
    let lines = text::text_lines(s);
    if s.len() > 0 {
        text::lemma_find(s, '\n');
        let k = text::find(s, '\n') as int;
        if k >= s.len() {
            assert(is_flat(s));
        } else {
            let head = s.take(k);
            let line = text::strip_carriage_return(head);
            assert forall|i: int| 0 <= i < line.len() implies line[i] != '\n' by {
                assert(line[i] == s[i]);
            }
            let rest = text::text_lines(s.skip(k + 1));
            lemma_text_lines_flat(s.skip(k + 1));
            assert forall|i: int| 0 <= i < lines.len() implies is_flat(#[trigger] lines[i]) by {
                if i > 0 {
                    assert(lines[i] == rest[i - 1]);
                }
            }
        }
    }
}

proof fn lemma_image_moved(
    prefix: Seq<char>,
    v: World,
    w: World,
    flat: bool,
    l: int,
    url: Seq<char>,
    title: Seq<char>,
)
    requires
        is_moved(prefix, v, w, flat),
        0 <= l < w.lines.len(),
        flat ==> is_flat(url) && is_flat(title),
    ensures
        is_moved(
            prefix,
            stack::image(v, l, url, title),
            stack::image(w, l, url, title),
            flat,
        ),
{
    lemma_bounds_flat();
    let open = "![]("@ + url;
    lemma_flat_concat("![]("@, url);
    lemma_unbreakable_moved(prefix, v, w, flat, l, open);
    let v1 = line::unbreakable(v, l, open);
    let w1 = line::unbreakable(w, l, open);
    lemma_unbreakable_moved(prefix, v1, w1, flat, l, ")"@);
    lemma_unbreakable_moved(prefix, v1, w1, flat, l, " \""@);
    let v2 = line::unbreakable(v1, l, " \""@);
    let w2 = line::unbreakable(w1, l, " \""@);
    lemma_breakable_moved(prefix, v2, w2, flat, l, title);
    lemma_unbreakable_moved(
        prefix,
        line::breakable(v2, l, title),
        line::breakable(w2, l, title),
        flat,
        l,
        "\")"@,
    );
}

proof fn lemma_inline_start_alike(
    prefix: Seq<char>,
    v: World,
    w: World,
    flat: bool,
    l: int,
    tag: TagView,
    root: bool,
)
    requires
        is_moved(prefix, v, w, flat),
        0 <= l < w.lines.len(),
        flat ==> is_flat_event(EventView::Start(tag)),
    ensures
        are_alike(
            prefix,
            stack::inline_start(v, l, tag, root),
            stack::inline_start(w, l, tag, root),
            flat,
        ),
{
    lemma_bounds_flat();
    lemma_moved_lines(prefix, v, w, flat, l);
    match tag {
        TagView::Emphasis => {
            lemma_unbreakable_moved(prefix, v, w, flat, l, "_"@);
        },
        TagView::Strong => {
            lemma_unbreakable_moved(prefix, v, w, flat, l, "**"@);
        },
        TagView::Strikethrough => {
            lemma_unbreakable_moved(prefix, v, w, flat, l, "~"@);
        },
        TagView::Link { url, title } => {
            lemma_unbreakable_moved(prefix, v, w, flat, l, "["@);
            lemma_flat_concat("]("@, url);
            lemma_flat_concat("]("@ + url, ")"@);
        },
        _ => {},
    }
}

proof fn lemma_inline_alike(
    prefix: Seq<char>,
    v: World,
    w: World,
    flat: bool,
    el: InlineView,
    e: EventView,
)
    requires
        is_moved(prefix, v, w, flat),
        0 <= el.line < w.lines.len(),
        flat ==> is_flat_event(e) && is_flat_el(ElView::Inline(el)),
    ensures
        are_alike(prefix, stack::inline_step(el, v, e), stack::inline_step(el, w, e), flat),
{
    let l = el.line;
    lemma_bounds_flat();
    lemma_moved_lines(prefix, v, w, flat, l);
    match e {
        EventView::End => {
            lemma_flushed_moved(prefix, v, w, flat, l);
            if let Some(b) = el.end_bound {
                lemma_unbreakable_moved(prefix, v, w, flat, l, b);
                lemma_line_moved(prefix, v, w, flat, l, b);
            }
        },
        EventView::Start(TagView::Image { url, title }) => {
            lemma_image_moved(prefix, v, w, flat, l, url, title);
        },
        EventView::Start(tag) => {
            lemma_inline_start_alike(prefix, v, w, flat, l, tag, false);
        },
        EventView::Text(s) => {
            lemma_breakable_moved(prefix, v, w, flat, l, s);
        },
        EventView::Code(s) => {
            lemma_flat_concat("`"@, s);
            lemma_flat_concat("`"@ + s, "`"@);
            lemma_unbreakable_moved(prefix, v, w, flat, l, stack::code_span(s));
        },
        _ => {
            lemma_whitespace_moved(prefix, v, w, flat, l, " "@);
        },
    }
}

proof fn lemma_block_open_alike(
    prefix: Seq<char>,
    v: World,
    w: World,
    flat: bool,
    l: int,
    tag: TagView,
)
    requires
        is_moved(prefix, v, w, flat),
        0 <= l < w.lines.len(),
        flat ==> is_flat_event(EventView::Start(tag)),
    ensures
        are_alike(prefix, stack::block_open(v, l, tag), stack::block_open(w, l, tag), flat),
{
    lemma_bounds_flat();
    lemma_moved_lines(prefix, v, w, flat, l);
    match tag {
        TagView::Heading(level) => {
            let mark = text::repeat('#', level);
            assert(is_flat(mark));
            lemma_with_line_moved(prefix, v, w, flat, l, Some(mark), "  "@, true);
        },
        TagView::BlockQuote => {
            lemma_with_line_moved(prefix, v, w, flat, l, None, ">"@, false);
        },
        TagView::CodeBlock(lang) => {
            if let Some(s) = lang {
                lemma_flat_concat("```"@, s);
            }
            let fence = stack::fence(lang);
            lemma_unbreakable_moved(prefix, v, w, flat, l, fence);
            let v1 = line::unbreakable(v, l, fence);
            let w1 = line::unbreakable(w, l, fence);
            lemma_with_line_moved(prefix, v1, w1, flat, l, None, Seq::empty(), false);
        },
        _ => {
            lemma_with_line_moved(prefix, v, w, flat, l, None, Seq::empty(), false);
        },
    }
}

/// What a block that comes does to both.
spec fn are_alike_blocks(
    prefix: Seq<char>,
    a: Option<(BlockView, World)>,
    b: Option<(BlockView, World)>,
    flat: bool,
) -> bool {
    match (a, b) {
        (None, None) => true,
        (Some((x, v)), Some((y, w))) => x == y && is_moved(prefix, v, w, flat),
        _ => false,
    }
}

proof fn lemma_block_ev_alike(prefix: Seq<char>, v: World, w: World, flat: bool, el: BlockView)
    requires
        is_moved(prefix, v, w, flat),
        0 <= el.line < w.lines.len(),
    ensures
        are_alike_blocks(prefix, stack::block_ev(el, v), stack::block_ev(el, w), flat),
        stack::block_ev(el, w) matches Some((next, u)) ==> u.lines.len() == w.lines.len(),
{
    let l = el.line;
    lemma_flushed_moved(prefix, v, w, flat, l);
    let v1 = if el.was_inline {
        line::flushed(v, l)
    } else {
        v
    };
    let w1 = if el.was_inline {
        line::flushed(w, l)
    } else {
        w
    };
    lemma_moved_lines(prefix, v1, w1, flat, l);
    lemma_emit_moved(prefix, v1, w1, flat, l, Seq::empty());
}

/// The same comes of both, and of the part.
spec fn are_alike_steps(
    prefix: Seq<char>,
    a: Option<(ElView, World, ResView)>,
    b: Option<(ElView, World, ResView)>,
    flat: bool,
) -> bool {
    match (a, b) {
        (None, None) => true,
        (Some((x, v, r)), Some((y, w, s))) => {
            &&& x == y
            &&& flat ==> is_flat_el(y)
            &&& are_alike(prefix, Some((v, r)), Some((w, s)), flat)
        },
        _ => false,
    }
}

/// A block's step as that of a part.
spec fn block_result(r: Option<(BlockView, World, ResView)>) -> Option<(ElView, World, ResView)> {
    match r {
        Some((next, v, res)) => Some((ElView::Block(next), v, res)),
        None => None,
    }
}

proof fn lemma_block_tag_alike(
    prefix: Seq<char>,
    v: World,
    w: World,
    flat: bool,
    el: BlockView,
    tag: TagView,
)
    requires
        is_moved(prefix, v, w, flat),
        0 <= el.line < w.lines.len(),
        flat ==> is_flat_event(EventView::Start(tag)) && is_flat_el(ElView::Block(el)),
    ensures
        are_alike_steps(
            prefix,
            block_result(stack::block_tag(el, v, tag)),
            block_result(stack::block_tag(el, w, tag)),
            flat,
        ),
{
    let l = el.line;
    lemma_bounds_flat();
    lemma_moved_lines(prefix, v, w, flat, l);
    match tag {
        TagView::Link { url, title } => {
            lemma_unbreakable_moved(prefix, v, w, flat, l, "["@);
        },
        TagView::Image { url, title } => {
            lemma_image_moved(prefix, v, w, flat, l, url, title);
        },
        TagView::Emphasis | TagView::Strong | TagView::Strikethrough => {
            lemma_inline_start_alike(prefix, v, w, flat, l, tag, true);
        },
        _ => {
            lemma_block_ev_alike(prefix, v, w, flat, el);
            if let Some((next, w1)) = stack::block_ev(el, w) {
                let v1 = stack::block_ev(el, v).unwrap().1;
                lemma_block_open_alike(prefix, v1, w1, flat, l, tag);
            }
        },
    }
}

proof fn lemma_block_alike(
    prefix: Seq<char>,
    v: World,
    w: World,
    flat: bool,
    el: BlockView,
    e: EventView,
)
    requires
        is_moved(prefix, v, w, flat),
        0 <= el.line < w.lines.len(),
        flat ==> is_flat_event(e) && is_flat_el(ElView::Block(el)),
    ensures
        are_alike_steps(
            prefix,
            block_result(stack::block_step(el, v, e)),
            block_result(stack::block_step(el, w, e)),
            flat,
        ),
{
    let l = el.line;
    lemma_bounds_flat();
    lemma_moved_lines(prefix, v, w, flat, l);
    match e {
        EventView::Start(tag) => {
            lemma_block_tag_alike(prefix, v, w, flat, el, tag);
        },
        EventView::End => {
            lemma_flushed_moved(prefix, v, w, flat, l);
            let v1 = if el.was_inline {
                line::flushed(v, l)
            } else {
                v
            };
            let w1 = if el.was_inline {
                line::flushed(w, l)
            } else {
                w
            };
            lemma_moved_lines(prefix, v1, w1, flat, l);
            if let Some(b) = el.end_bound {
                lemma_line_moved(prefix, v1, w1, flat, l, b);
            }
        },
        EventView::Text(s) => {
            lemma_breakable_moved(prefix, v, w, flat, l, s);
        },
        EventView::Code(s) => {
            lemma_flat_concat("`"@, s);
            lemma_flat_concat("`"@ + s, "`"@);
            lemma_unbreakable_moved(prefix, v, w, flat, l, stack::code_span(s));
        },
        _ => {},
    }
}

proof fn lemma_list_alike(
    prefix: Seq<char>,
    v: World,
    w: World,
    flat: bool,
    l: int,
    mark: Seq<char>,
    e: EventView,
)
    requires
        is_moved(prefix, v, w, flat),
        0 <= l < w.lines.len(),
        is_flat(mark),
    ensures
        are_alike(
            prefix,
            stack::list_step(l, mark, v, e),
            stack::list_step(l, mark, w, e),
            flat,
        ),
{
    lemma_bounds_flat();
    lemma_moved_lines(prefix, v, w, flat, l);
    lemma_with_line_moved(prefix, v, w, flat, l, Some(mark), "   "@, false);
}

proof fn lemma_code_alike(prefix: Seq<char>, v: World, w: World, flat: bool, l: int, e: EventView)
    requires
        is_moved(prefix, v, w, flat),
        0 <= l < w.lines.len(),
    ensures
        are_alike(prefix, stack::code_step(l, v, e), stack::code_step(l, w, e), flat),
{
    lemma_bounds_flat();
    lemma_moved_lines(prefix, v, w, flat, l);
    lemma_line_moved(prefix, v, w, flat, l, "```"@);
    if let EventView::Text(s) = e {
        lemma_text_lines_flat(s);
        lemma_code_lines_moved(prefix, v, w, flat, l, text::text_lines(s));
    }
}

proof fn lemma_number_flat(count: u64)
    ensures
        is_flat(stack::number_mark(count)),
{
    let digits = text::decimal(count as nat);
    lemma_bounds_flat();
    text::law_decimal(count as nat);
    assert forall|i: int| 0 <= i < digits.len() implies digits[i] != '\n' by {
        assert('0' <= digits[i] <= '9');
    }
    lemma_flat_concat(digits, ". "@);
}

proof fn lemma_step_alike(
    prefix: Seq<char>,
    v: World,
    w: World,
    flat: bool,
    el: ElView,
    e: EventView,
)
    requires
        is_moved(prefix, v, w, flat),
        stack::is_valid(el, w),
        flat ==> is_flat_el(el) && (is_flat_event(e) || el is CodeBlock && e is Text),
    ensures
        are_alike_steps(prefix, stack::step(el, v, e), stack::step(el, w, e), flat),
{
    reveal(stack::step);
    match el {
        ElView::Inline(inline) => {
            lemma_inline_alike(prefix, v, w, flat, inline, e);
        },
        ElView::Block(block) => {
            lemma_block_alike(prefix, v, w, flat, block, e);
        },
        ElView::NumberList { count, line } => {
            lemma_number_flat(count);
            lemma_list_alike(prefix, v, w, flat, line, stack::number_mark(count), e);
        },
        ElView::BulletList { line } => {
            lemma_bounds_flat();
            lemma_list_alike(prefix, v, w, flat, line, "* "@, e);
        },
        ElView::CodeBlock { line } => {
            lemma_code_alike(prefix, v, w, flat, line, e);
        },
    }
}

/// Both have the same parts open, and one has its lines behind `prefix`.
spec fn are_alike_machines(prefix: Seq<char>, a: Machine, b: Machine, flat: bool) -> bool {
    &&& a.stack == b.stack
    &&& is_moved(prefix, a.world, b.world, flat)
    &&& flat ==> forall|i: int| 0 <= i < b.stack.len() ==> is_flat_el(#[trigger] b.stack[i])
}

proof fn lemma_advance_alike(prefix: Seq<char>, a: Machine, b: Machine, flat: bool, e: EventView)
    requires
        are_alike_machines(prefix, a, b, flat),
        render::is_sound(b),
        flat ==> is_flat_event(e) || b.stack.len() > 0 && b.stack.last() is CodeBlock && e is Text,
    ensures
        match (render::advance(a, e), render::advance(b, e)) {
            (None, None) => true,
            (Some(c), Some(d)) => are_alike_machines(prefix, c, d, flat),
            _ => false,
        },
{
    reveal(render::advance);
    if b.stack.len() > 0 {
        let el = b.stack.last();
        assert(b.stack[b.stack.len() - 1] == el);
        lemma_step_alike(prefix, a.world, b.world, flat, el, e);
        if let Some(d) = render::advance(b, e) {
            if flat {
                assert forall|i: int| 0 <= i < d.stack.len() implies is_flat_el(
                    #[trigger] d.stack[i],
                ) by {
                    if i < b.stack.len() - 1 {
                        assert(d.stack[i] == b.stack[i]);
                    }
                }
            }
        }
    }
}

/// The event at `i` brings no line feed with it, but for the text of a code block.
pub open spec fn is_flat_at(max_width: nat, events: Seq<EventView>, i: int) -> bool {
    ||| is_flat_event(events[i])
    ||| events[i] is Text && (render::run(render::start(Seq::empty(), max_width), events.take(i))
        matches Some(m) && m.stack.len() > 0 && m.stack.last() is CodeBlock)
}

/// No event brings a line feed with it, but for the texts of code blocks.
pub open spec fn is_flat_document(max_width: nat, events: Seq<EventView>) -> bool {
    forall|i: int| 0 <= i < events.len() ==> #[trigger] is_flat_at(max_width, events, i)
}

proof fn lemma_start_alike(prefix: Seq<char>, max_width: nat, flat: bool)
    ensures
        are_alike_machines(
            prefix,
            render::start(prefix, max_width),
            render::start(Seq::empty(), max_width),
            flat,
        ),
        render::is_sound(render::start(Seq::empty(), max_width)),
{
    reveal(is_moved);
    let v = render::start(prefix, max_width).world;
    let w = render::start(Seq::empty(), max_width).world;
    assert(prefix + Seq::<char>::empty() =~= prefix);
    assert(v.lines =~= w.lines.map_values(|l: LineView| shifted(prefix, l)));
    let none = Seq::<Seq<char>>::empty();
    assert(put_behind(prefix, none) =~= none);
    assert(w.out =~= comment::join(none));
}

proof fn lemma_run_alike(prefix: Seq<char>, max_width: nat, events: Seq<EventView>, flat: bool)
    requires
        flat ==> is_flat_document(max_width, events),
    ensures
        match (
            render::run(render::start(prefix, max_width), events),
            render::run(render::start(Seq::empty(), max_width), events),
        ) {
            (None, None) => true,
            (Some(a), Some(b)) => are_alike_machines(prefix, a, b, flat),
            _ => false,
        },
    decreases events.len(),
{
    let m0 = render::start(Seq::empty(), max_width);
    lemma_start_alike(prefix, max_width, flat);
    if events.len() > 0 {
        let some = events.drop_last();
        let n = events.len() - 1;
        assert(events.take(n) =~= some);
        if flat {
            assert(is_flat_at(max_width, events, n));
            assert forall|i: int| 0 <= i < some.len() implies #[trigger] is_flat_at(
                max_width,
                some,
                i,
            ) by {
                assert(is_flat_at(max_width, events, i));
                assert(events.take(i) =~= some.take(i));
            }
        }
        lemma_run_alike(prefix, max_width, some, flat);
        render::lemma_run_sound(m0, some);
        if let Some(b) = render::run(m0, some) {
            let a = render::run(render::start(prefix, max_width), some).unwrap();
            lemma_advance_alike(prefix, a, b, flat, events.last());
        }
    }
}

/// `text` is made of the lines of `bare`, each behind `prefix`.
pub open spec fn has_lines_of(prefix: Seq<char>, text: Seq<char>, bare: Seq<char>) -> bool {
    exists|lines: Seq<Seq<char>>|
        bare == #[trigger] comment::join(lines) && text == comment::join(put_behind(prefix, lines))
}

/// The prefix only moves the lines of a document: whether it can be written does
/// not depend on it, and what is written has the lines of what is written without
/// a prefix, each behind the prefix. The prefix takes nothing of the width.
pub proof fn law_prefix_moves_lines(prefix: Seq<char>, max_width: nat, events: Seq<EventView>)
    ensures
        match (
            render::rendered(prefix, max_width, events),
            render::rendered(Seq::empty(), max_width, events),
        ) {
            (None, None) => true,
            (Some(text), Some(bare)) => has_lines_of(prefix, text, bare),
            _ => false,
        },
{
    reveal(is_moved);
    lemma_run_alike(prefix, max_width, events, false);
}

/// The pieces of `s` between line feeds.
pub open spec fn split(s: Seq<char>) -> Seq<Seq<char>>
    decreases s.len(),
{
    let k = text::find(s, '\n') as int;
    if k >= s.len() {
        seq![s]
    } else {
        seq![s.take(k)] + split(s.skip(k + 1))
    }
}

proof fn lemma_flat_found(a: Seq<char>, b: Seq<char>)
    requires
        is_flat(a),
        b.len() > 0 ==> b[0] == '\n',
    ensures
        text::find(a + b, '\n') == a.len(),
{
    assert forall|i: int| 0 <= i < a.len() implies (a + b)[i] != '\n' by {
        assert(a.contains(a[i]));
    }
    text::lemma_find_is(a + b, '\n', a.len() as int);
}

proof fn lemma_split_last(a: Seq<char>, b: Seq<char>)
    requires
        is_flat(b),
    ensures
        split(a.push('\n') + b) == split(a).push(b),
    decreases a.len(),
{
    let s = a.push('\n') + b;
    let k = text::find(a, '\n') as int;
    text::lemma_find(a, '\n');
    if k >= a.len() {
        let tail = seq!['\n'] + b;
        assert(is_flat(a));
        lemma_flat_found(a, tail);
        assert(s =~= a + tail);
        assert(s.take(k) =~= a);
        assert(s.skip(k + 1) =~= b);
        lemma_flat_found(b, Seq::empty());
        assert(b + Seq::<char>::empty() =~= b);
        assert(split(b) =~= seq![b]);
        assert(split(s) =~= split(a).push(b));
    } else {
        let head = a.take(k);
        let rest = a.skip(k + 1);
        assert(!head.contains('\n'));
        lemma_flat_found(head, s.skip(k));
        assert(s =~= head + s.skip(k));
        assert(s.take(k) =~= head);
        assert(s.skip(k + 1) =~= rest.push('\n') + b);
        lemma_split_last(rest, b);
        assert(split(s) =~= split(a).push(b));
    }
}

/// Joining lines and splitting them gives them back.
pub proof fn lemma_split_join(lines: Seq<Seq<char>>)
    requires
        lines.len() > 0,
        all_flat(lines),
    ensures
        split(comment::join(lines)) == lines,
    decreases lines.len(),
{
    if lines.len() == 1 {
        let s = lines[0];
        assert(is_flat(s));
        lemma_flat_found(s, Seq::empty());
        assert(s + Seq::<char>::empty() =~= s);
        assert(split(s) =~= lines);
    } else {
        let some = lines.drop_last();
        assert(is_flat(lines[lines.len() - 1]));
        assert forall|i: int| 0 <= i < some.len() implies is_flat(#[trigger] some[i]) by {
            assert(is_flat(lines[i]));
        }
        lemma_split_join(some);
        lemma_split_last(comment::join(some), lines.last());
        assert(some.push(lines.last()) =~= lines);
    }
}

/// Line by line: of a document whose texts hold no line feed, but for those of code
/// blocks, each line between line feeds comes behind the prefix, and is else the
/// line that is written without a prefix. Nothing comes of a document without lines.
pub proof fn law_prefix_line_by_line(prefix: Seq<char>, max_width: nat, events: Seq<EventView>)
    requires
        is_flat(prefix),
        is_flat_document(max_width, events),
    ensures
        match (
            render::rendered(prefix, max_width, events),
            render::rendered(Seq::empty(), max_width, events),
        ) {
            (None, None) => true,
            (Some(text), Some(bare)) => text.len() > 0 || bare.len() > 0 ==> split(text)
                == put_behind(prefix, split(bare)),
            _ => false,
        },
{
    reveal(is_moved);
    lemma_run_alike(prefix, max_width, events, true);
    if let Some(b) = render::run(render::start(Seq::empty(), max_width), events) {
        let a = render::run(render::start(prefix, max_width), events).unwrap();
        let lines = choose|lines: Seq<Seq<char>>|
            b.world.out == #[trigger] comment::join(lines) && a.world.out == comment::join(
                put_behind(prefix, lines),
            ) && b.world.need_nl == (lines.len() > 0) && all_flat(lines);
        let moved = put_behind(prefix, lines);
        if lines.len() > 0 {
            assert forall|i: int| 0 <= i < moved.len() implies is_flat(#[trigger] moved[i]) by {
                assert(is_flat(lines[i]));
                lemma_flat_concat(prefix, lines[i]);
            }
            lemma_split_join(lines);
            lemma_split_join(moved);
        } else {
            assert(moved =~= lines);
        }
    }
}

} // verus!
