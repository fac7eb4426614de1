//! Lines are filled: text is broken only where the next word does not fit.
use vstd::prelude::*;
use crate::comment;
use crate::line::{self, Wrapped};
use crate::line_laws;
use crate::markdown::{EventView, TagView};
use crate::render;
use crate::render_laws;
use crate::text;
use crate::text_laws;

verus! {

/// No space among the characters behind `b` is near enough that the line, up to
/// and with it, stays below the width.
pub open spec fn has_no_later_space(buffer: Seq<char>, s: Seq<char>, width: int, b: int) -> bool {
    forall|c: int|
        b < c <= s.len() && s[c - 1] == ' ' ==> text::byte_len(buffer) + text::byte_len(
            #[trigger] s.take(c),
        ) >= width
}

/// The text goes on the line as far as `b`: behind the last space that is near
/// enough. Without such a space, none of it goes on a line that something stands
/// on, and all of it on an empty one.
pub open spec fn is_first_break(buffer: Seq<char>, s: Seq<char>, width: int, b: int) -> bool {
    if has_no_later_space(buffer, s, width, 0) {
        b == (if buffer.len() > 0 {
            0
        } else {
            s.len() as int
        })
    } else {
        &&& 0 < b <= s.len()
        &&& s[b - 1] == ' '
        &&& text::byte_len(buffer) + text::byte_len(s.take(b)) < width
        &&& has_no_later_space(buffer, s, width, b)
    }
}

/// How text is broken over lines. What fits stays on the line. Else the line is
/// filled as far as spaces let it be, and what is left, without white space around
/// it, is broken over lines of its own.
pub proof fn law_wrap_first(buffer: Seq<char>, s: Seq<char>, width: int)
    ensures
        ({
            let w = line::wrap(buffer, s, width);
            if s.len() == 0 || text::byte_len(buffer) + text::byte_len(s) <= width {
                w.lines.len() == 0 && w.rest == buffer + s
            } else {
                &&& w.lines.len() > 0
                &&& exists|b: int| #[trigger]
                    is_first_break(buffer, s, width, b) && w.lines[0] == buffer + s.take(b) && (
                    Wrapped { lines: w.lines.drop_first(), rest: w.rest }) == line::wrap(
                        Seq::empty(),
                        text::trim(s.skip(b)),
                        width,
                    )
            }
        }),
{
    let w = line::wrap(buffer, s, width);
    let used = text::byte_len(buffer) as int;
    if s.len() == 0 {
        assert(buffer + s =~= buffer);
    } else if used + text::byte_len(s) > width {
        line::lemma_last_break(used, s, width, s.len() as int);
        let found = line::last_break(used, s, width, s.len() as int);
        let b = match found {
            Some(b) => b,
            None => if buffer.len() > 0 {
                0
            } else {
                s.len() as int
            },
        };
        if found is Some {
            assert(!has_no_later_space(buffer, s, width, 0)) by {
                assert(text::byte_len(buffer) + text::byte_len(s.take(b)) < width);
            }
        }
        assert(is_first_break(buffer, s, width, b));
        assert(s.skip(0) =~= s);
        assert(buffer + s.take(0) =~= buffer);
        if found is None && buffer.len() == 0 {
            assert(s.skip(b) =~= Seq::<char>::empty());
            assert(text::trim(s.skip(b)) =~= Seq::<char>::empty());
            assert(buffer + s.take(b) =~= s);
            assert(w.lines.drop_first() =~= Seq::<Seq<char>>::empty());
        } else {
            let more = line::wrap(Seq::empty(), text::trim(s.skip(b)), width);
            assert(w.lines.drop_first() =~= more.lines);
        }
    }
}

/// A space has one byte.
proof fn lemma_space_byte()
    ensures
        text::byte_len(seq![' ']) == 1,
{
    text::lemma_byte_len_one(' ');
    reveal_with_fuel(vstd::utf8::encode_utf8, 2);
    assert(seq![' '].drop_first() =~= Seq::<char>::empty());
}

/// All white space in `s` is spaces.
pub open spec fn is_spaced(s: Seq<char>) -> bool {
    forall|i: int| 0 <= i < s.len() && text::white_space(#[trigger] s[i]) ==> s[i] == ' '
}

/// The first piece of `s`: what stands before its first space.
pub open spec fn first_piece(s: Seq<char>) -> Seq<char> {
    s.take(text::find(s, ' ') as int)
}

/// What stands on the line behind that at `i`, or in the rest.
pub open spec fn line_behind(w: Wrapped, i: int) -> Seq<char> {
    if i + 1 < w.lines.len() {
        w.lines[i + 1]
    } else {
        w.rest
    }
}

/// The line could not have taken the first piece of the next one and a space.
pub open spec fn is_filled(w: Wrapped, i: int, width: int) -> bool {
    line_behind(w, i).len() > 0 ==> text::byte_len(w.lines[i]) + text::byte_len(
        first_piece(line_behind(w, i)),
    ) + 1 >= width
}

/// What breaking puts first starts with the first piece of the text.
proof fn lemma_first_piece(s: Seq<char>, width: int)
    requires
        s.len() > 0,
    ensures
        ({
            let w = line::wrap(Seq::empty(), s, width);
            let head = if w.lines.len() > 0 {
                w.lines[0]
            } else {
                w.rest
            };
            first_piece(head) == first_piece(s)
        }),
{
    let none = Seq::<char>::empty();
    let w = line::wrap(none, s, width);
    law_wrap_first(none, s, width);
    text::lemma_find(s, ' ');
    let k = text::find(s, ' ') as int;
    if w.lines.len() == 0 {
        assert(none + s =~= s);
    } else {
        let b = choose|b: int| #[trigger]
            is_first_break(none, s, width, b) && w.lines[0] == none + s.take(b) && (Wrapped {
                lines: w.lines.drop_first(),
                rest: w.rest,
            }) == line::wrap(Seq::empty(), text::trim(s.skip(b)), width);
        let head = s.take(b);
        assert(none + head =~= head);
        if b == s.len() {
            assert(head =~= s);
        } else {
            assert(k < b);
            text::lemma_find_is(head, ' ', k);
            assert(head.take(k) =~= s.take(k));
        }
    }
}

/// Trimming a text whose white space is spaces takes spaces off its ends.
proof fn lemma_trim_spaces(s: Seq<char>) -> (r: (Seq<char>, Seq<char>))
    requires
        is_spaced(s),
    ensures
        s == r.0 + text::trim(s) + r.1,
        forall|i: int| 0 <= i < r.0.len() ==> #[trigger] r.0[i] == ' ',
        forall|i: int| 0 <= i < r.1.len() ==> #[trigger] r.1[i] == ' ',
{
    let t = text::trim_end(s);
    let behind = lemma_trim_end_spaces(s);
    assert forall|i: int| 0 <= i < t.len() && text::white_space(#[trigger] t[i]) implies t[i]
        == ' ' by {
        assert(s[i] == t[i]);
    }
    let before = lemma_trim_start_spaces(t);
    assert(s =~= before + text::trim(s) + behind);
    (before, behind)
}

proof fn lemma_trim_end_spaces(s: Seq<char>) -> (behind: Seq<char>)
    requires
        is_spaced(s),
    ensures
        s == text::trim_end(s) + behind,
        forall|i: int| 0 <= i < behind.len() ==> #[trigger] behind[i] == ' ',
    decreases s.len(),
{
    if s.len() > 0 && text::white_space(s.last()) {
        let some = s.drop_last();
        assert forall|i: int| 0 <= i < some.len() && text::white_space(#[trigger] some[i]) implies some[i]
            == ' ' by {
            assert(s[i] == some[i]);
        }
        let behind = lemma_trim_end_spaces(some);
        assert(s[s.len() - 1] == ' ');
        assert(s =~= some.push(' '));
        assert(s =~= text::trim_end(some) + behind.push(' '));
        behind.push(' ')
    } else {
        assert(s =~= s + Seq::<char>::empty());
        Seq::empty()
    }
}

proof fn lemma_trim_start_spaces(s: Seq<char>) -> (before: Seq<char>)
    requires
        is_spaced(s),
    ensures
        s == before + text::trim_start(s),
        forall|i: int| 0 <= i < before.len() ==> #[trigger] before[i] == ' ',
    decreases s.len(),
{
    if s.len() > 0 && text::white_space(s[0]) {
        let some = s.drop_first();
        assert forall|i: int| 0 <= i < some.len() && text::white_space(#[trigger] some[i]) implies some[i]
            == ' ' by {
            assert(s[i + 1] == some[i]);
        }
        let before = lemma_trim_start_spaces(some);
        assert(s =~= seq![' '] + some);
        assert(s =~= seq![' '] + before + text::trim_start(some));
        seq![' '] + before
    } else {
        assert(s =~= Seq::<char>::empty() + s);
        Seq::empty()
    }
}

/// The first line that is broken off is filled.
proof fn lemma_first_filled(buffer: Seq<char>, s: Seq<char>, width: int, b: int)
    requires
        is_spaced(s),
        text::byte_len(buffer) + text::byte_len(s) > width,
        is_first_break(buffer, s, width, b),
        text::trim(s.skip(b)).len() > 0,
    ensures
        text::byte_len(buffer + s.take(b)) + text::byte_len(first_piece(text::trim(s.skip(b)))) + 1
            >= width,
{
    let t = s.skip(b);
    let r = text::trim(t);
    assert forall|i: int| 0 <= i < t.len() && text::white_space(#[trigger] t[i]) implies t[i]
        == ' ' by {
        assert(s[b + i] == t[i]);
    }
    let (before, behind) = lemma_trim_spaces(t);
    let line = buffer + s.take(b);
    lemma_space_byte();
    text::lemma_byte_len_concat(buffer, s.take(b));
    assert(has_no_later_space(buffer, s, width, b));
    if before.len() > 0 {
        assert(t[0] == before[0]);
        assert(s.take(b + 1) =~= s.take(b) + seq![' ']);
        text::lemma_byte_len_concat(s.take(b), seq![' ']);
        assert(s[b + 1 - 1] == ' ');
    } else {
        let k = text::find(r, ' ') as int;
        text::lemma_find(r, ' ');
        assert(t =~= r + behind);
        if k < t.len() {
            assert(t[k] == ' ') by {
                if k == r.len() {
                    assert(t[k] == behind[0]);
                }
            }
            let c = b + k + 1;
            assert(t.take(k + 1) =~= r.take(k) + seq![' ']);
            assert(s.take(c) =~= s.take(b) + t.take(k + 1));
            assert(s.take(c) =~= s.take(b) + r.take(k) + seq![' ']);
            text::lemma_byte_len_concat(s.take(b) + r.take(k), seq![' ']);
            text::lemma_byte_len_concat(s.take(b), r.take(k));
            assert(s[c - 1] == ' ');
        } else {
            assert(r.take(k) =~= t);
            assert(s =~= s.take(b) + t);
            text::lemma_byte_len_concat(s.take(b), t);
        }
    }
}

/// Lines are filled: no line that is broken off could have taken the next piece of
/// the text and the space behind it.
pub proof fn law_lines_filled(buffer: Seq<char>, s: Seq<char>, width: int)
    requires
        is_spaced(s),
    ensures
        forall|i: int|
            0 <= i < line::wrap(buffer, s, width).lines.len() ==> #[trigger] is_filled(
                line::wrap(buffer, s, width),
                i,
                width,
            ),
    decreases s.len(), (if buffer.len() > 0 { 1int } else { 0int }),
{
    let w = line::wrap(buffer, s, width);
    law_wrap_first(buffer, s, width);
    if s.len() > 0 && text::byte_len(buffer) + text::byte_len(s) > width {
        let b = choose|b: int| #[trigger]
            is_first_break(buffer, s, width, b) && w.lines[0] == buffer + s.take(b) && (Wrapped {
                lines: w.lines.drop_first(),
                rest: w.rest,
            }) == line::wrap(Seq::empty(), text::trim(s.skip(b)), width);
        let t = s.skip(b);
        let r = text::trim(t);
        let more = line::wrap(Seq::empty(), r, width);
        line::lemma_trim_len(t);
        assert(b > 0 || buffer.len() > 0);
        assert forall|i: int| 0 <= i < t.len() && text::white_space(#[trigger] t[i]) implies t[i]
            == ' ' by {
            assert(s[b + i] == t[i]);
        }
        let (before, behind) = lemma_trim_spaces(t);
        assert forall|i: int| 0 <= i < r.len() && text::white_space(#[trigger] r[i]) implies r[i]
            == ' ' by {
            assert(t[before.len() + i] == r[i]);
        }
        law_lines_filled(Seq::empty(), r, width);
        if r.len() > 0 {
            lemma_first_piece(r, width);
            lemma_first_filled(buffer, s, width, b);
        }
        assert forall|i: int| 0 <= i < w.lines.len() implies #[trigger] is_filled(w, i, width) by {
            assert(w.lines.drop_first() == more.lines);
            if i + 1 < w.lines.len() {
                assert(w.lines[i + 1] == more.lines[i]);
            }
            if i > 0 {
                assert(is_filled(more, i - 1, width));
                assert(w.lines[i] == more.lines[i - 1]);
            } else if r.len() == 0 {
                assert(more.lines.len() == 0 && more.rest.len() == 0);
            }
        }
    }
}

/// A text of words with one space between two of them.
pub open spec fn is_single_spaced(s: Seq<char>) -> bool {
    &&& is_spaced(s)
    &&& text_laws::is_tight(s)
    &&& forall|i: int| 0 <= i && i + 1 < s.len() && (#[trigger] s[i]) == ' ' ==> s[i + 1] != ' '
}

/// The line at `i` could not have taken a space, the first piece of the next line
/// and the space behind that.
pub open spec fn is_full_at(lines: Seq<Seq<char>>, width: int, i: int) -> bool {
    text::byte_len(lines[i]) + 1 + text::byte_len(first_piece(lines[i + 1])) + 1 >= width
}

/// Lines that `s` may stand on: each a line without white space at its ends, each
/// but the last filled, with the words of `s` in order, and none longer than the
/// width if the pieces of `s` are short.
pub open spec fn are_good_lines(s: Seq<char>, max_width: nat, lines: Seq<Seq<char>>) -> bool {
    &&& forall|i: int|
        0 <= i < lines.len() ==> is_spaced(#[trigger] lines[i]) && text_laws::is_tight(lines[i])
    &&& forall|i: int| 0 <= i < lines.len() - 1 ==> #[trigger] is_full_at(lines, max_width as int, i)
    &&& line_laws::words_of(lines) == line_laws::words(s)
    &&& line_laws::has_short_pieces(s, max_width as int) ==> forall|i: int|
        0 <= i < lines.len() ==> text::byte_len(#[trigger] lines[i]) <= max_width
}

/// No line that breaking a text makes is empty.
proof fn lemma_no_empty_line(s: Seq<char>, width: int)
    ensures
        forall|i: int|
            0 <= i < line::wrap(Seq::empty(), s, width).lines.len() ==> (#[trigger] line::wrap(
                Seq::empty(),
                s,
                width,
            ).lines[i]).len() > 0,
    decreases s.len(),
{
    let none = Seq::<char>::empty();
    let w = line::wrap(none, s, width);
    law_wrap_first(none, s, width);
    text::lemma_byte_len_bounds(none);
    if s.len() > 0 && text::byte_len(s) > width {
        let b = choose|b: int| #[trigger]
            is_first_break(none, s, width, b) && w.lines[0] == none + s.take(b) && (Wrapped {
                lines: w.lines.drop_first(),
                rest: w.rest,
            }) == line::wrap(Seq::empty(), text::trim(s.skip(b)), width);
        let r = text::trim(s.skip(b));
        let more = line::wrap(none, r, width);
        line::lemma_trim_len(s.skip(b));
        lemma_no_empty_line(r, width);
        assert forall|i: int| 0 <= i < w.lines.len() implies (#[trigger] w.lines[i]).len() > 0 by {
            assert(w.lines.drop_first() == more.lines);
            if i > 0 {
                assert(w.lines[i] == more.lines[i - 1]);
            }
        }
    }
}

proof fn lemma_paragraph_words(s: Seq<char>, width: int)
    ensures
        line_laws::words_of(render_laws::paragraph_lines(s, width)) == line_laws::words(s),
{
    let none = Seq::<char>::empty();
    let t = text::trim(s);
    let w = line::wrap(none, t, width);
    line_laws::law_wrap_keeps_words(none, t, width);
    assert(none + t =~= t);
    line_laws::lemma_words_trim(s);
    line_laws::lemma_words_of_push(w.lines, w.rest);
    if w.rest.len() == 0 {
        assert(line_laws::words_of(w.lines) + line_laws::words(w.rest) =~= line_laws::words_of(
            w.lines,
        ));
    }
}

proof fn lemma_paragraph_fits(s: Seq<char>, width: int)
    requires
        line_laws::has_short_pieces(s, width),
        width >= 0,
    ensures
        forall|i: int|
            0 <= i < render_laws::paragraph_lines(s, width).len() ==> text::byte_len(
                #[trigger] render_laws::paragraph_lines(s, width)[i],
            ) <= width,
{
    let none = Seq::<char>::empty();
    let t = text::trim(s);
    let w = line::wrap(none, t, width);
    let lines = render_laws::paragraph_lines(s, width);
    line_laws::lemma_trim_short(s, width);
    text::lemma_byte_len_bounds(none);
    line_laws::law_wrap_never_over(none, t, width);
    assert forall|i: int| 0 <= i < lines.len() implies text::byte_len(#[trigger] lines[i])
        <= width by {
        if i < w.lines.len() {
            assert(lines[i] == w.lines[i]);
        }
    }
}

/// A line as it stands and as it is written: a space is lost at most.
spec fn is_nearly_tight(line: Seq<char>) -> bool {
    let c = text::trim_end(line);
    &&& is_spaced(c)
    &&& text_laws::is_tight(c)
    &&& line == c || line == c + seq![' ']
}

proof fn lemma_single_spaced_part(s: Seq<char>, a: int, b: int)
    requires
        is_single_spaced(s),
        0 <= a <= b <= s.len(),
        a < b ==> s[a] != ' ' && s[b - 1] != ' ',
    ensures
        is_single_spaced(s.subrange(a, b)),
{
    let t = s.subrange(a, b);
    assert forall|i: int| 0 <= i < t.len() && text::white_space(#[trigger] t[i]) implies t[i]
        == ' ' by {
        assert(s[a + i] == t[i]);
    }
    assert forall|i: int| 0 <= i && i + 1 < t.len() && (#[trigger] t[i]) == ' ' implies t[i + 1]
        != ' ' by {
        assert(s[a + i] == t[i] && s[a + i + 1] == t[i + 1]);
    }
    if t.len() > 0 {
        assert(t[0] == s[a] && t[t.len() - 1] == s[b - 1]);
        assert(text::white_space(s[a]) ==> s[a] == ' ');
        assert(text::white_space(s[b - 1]) ==> s[b - 1] == ' ');
    }
}

proof fn lemma_tight_trim(s: Seq<char>)
    requires
        text_laws::is_tight(s),
    ensures
        text::trim(s) == s,
        text::trim_end(s) == s,
{
    let none = Seq::<char>::empty();
    text_laws::law_trim(none, s, none);
    text_laws::law_trim_end(s, none);
    assert(none + s + none =~= s);
    assert(s + none =~= s);
}

proof fn lemma_nearly_tight(s: Seq<char>, width: int)
    requires
        is_single_spaced(s),
    ensures
        forall|i: int|
            0 <= i < line::wrap(Seq::empty(), s, width).lines.len() ==> is_nearly_tight(
                #[trigger] line::wrap(Seq::empty(), s, width).lines[i],
            ),
        is_nearly_tight(line::wrap(Seq::empty(), s, width).rest),
    decreases s.len(),
{
    let none = Seq::<char>::empty();
    let w = line::wrap(none, s, width);
    law_wrap_first(none, s, width);
    text::lemma_byte_len_bounds(none);
    lemma_tight_trim(s);
    if s.len() > 0 && text::byte_len(s) > width {
        let b = choose|b: int| #[trigger]
            is_first_break(none, s, width, b) && w.lines[0] == none + s.take(b) && (Wrapped {
                lines: w.lines.drop_first(),
                rest: w.rest,
            }) == line::wrap(Seq::empty(), text::trim(s.skip(b)), width);
        let t = s.skip(b);
        let line = s.take(b);
        assert(none + line =~= line);
        assert(text::white_space(' '));
        if b == s.len() {
            assert(line =~= s);
            assert(t =~= none);
        } else {
            assert(s[b - 1] == ' ');
            assert(s[0] != ' ');
            assert(s[b - 2] == ' ' ==> s[b - 2 + 1] != ' ');
            assert(s[b] != ' ');
            assert(s[s.len() - 1] != ' ');
            let c = s.subrange(0, b - 1);
            lemma_single_spaced_part(s, 0, b - 1);
            lemma_single_spaced_part(s, b, s.len() as int);
            assert(t =~= s.subrange(b, s.len() as int));
            assert(line =~= c + seq![' ']);
            text_laws::law_trim_end(c, seq![' ']);
            assert(is_nearly_tight(line));
        }
        lemma_tight_trim(t);
        lemma_nearly_tight(t, width);
        let more = line::wrap(none, t, width);
        assert forall|i: int| 0 <= i < w.lines.len() implies is_nearly_tight(
            #[trigger] w.lines[i],
        ) by {
            assert(w.lines.drop_first() == more.lines);
            if i > 0 {
                assert(w.lines[i] == more.lines[i - 1]);
            }
        }
    } else {
        assert(none + s =~= s);
    }
}

/// A space at the end does not change the first piece.
proof fn lemma_piece_before_space(c: Seq<char>)
    ensures
        first_piece(c + seq![' ']) == first_piece(c),
{
    let s = c + seq![' '];
    let k = text::find(c, ' ') as int;
    text::lemma_find(c, ' ');
    assert forall|i: int| 0 <= i < k implies s[i] != ' ' by {
        assert(s[i] == c[i]);
    }
    text::lemma_find_is(s, ' ', k);
    assert(s.take(k) =~= c.take(k));
}

/// The lines of a paragraph, as they are written behind the prefix.
spec fn contents(s: Seq<char>, width: int) -> Seq<Seq<char>> {
    render_laws::paragraph_lines(s, width).map_values(|c: Seq<char>| text::trim_end(c))
}

proof fn lemma_contents_tight(s: Seq<char>, width: int)
    requires
        is_single_spaced(s),
    ensures
        forall|i: int|
            0 <= i < contents(s, width).len() ==> is_nearly_tight(
                #[trigger] render_laws::paragraph_lines(s, width)[i],
            ),
{
    let lines = render_laws::paragraph_lines(s, width);
    let w = line::wrap(Seq::empty(), text::trim(s), width);
    lemma_tight_trim(s);
    lemma_nearly_tight(s, width);
    assert forall|i: int| 0 <= i < lines.len() implies is_nearly_tight(#[trigger] lines[i]) by {
        if i < w.lines.len() {
            assert(lines[i] == w.lines[i]);
        }
    }
}

proof fn lemma_contents_filled(s: Seq<char>, width: int)
    requires
        is_single_spaced(s),
    ensures
        forall|i: int|
            0 <= i < contents(s, width).len() - 1 ==> #[trigger] is_full_at(
                contents(s, width),
                width,
                i,
            ),
{
    let w = line::wrap(Seq::empty(), text::trim(s), width);
    let lines = render_laws::paragraph_lines(s, width);
    let cs = contents(s, width);
    lemma_tight_trim(s);
    law_lines_filled(Seq::empty(), s, width);
    lemma_no_empty_line(s, width);
    lemma_contents_tight(s, width);
    lemma_space_byte();
    assert forall|i: int| 0 <= i < cs.len() - 1 implies #[trigger] is_full_at(cs, width, i) by {
        assert(is_filled(w, i, width));
        if i + 1 < w.lines.len() {
            assert(lines[i + 1] == w.lines[i + 1]);
        }
        assert(is_nearly_tight(lines[i]));
        assert(is_nearly_tight(lines[i + 1]));
        text::lemma_byte_len_concat(cs[i], seq![' ']);
        lemma_piece_before_space(cs[i + 1]);
    }
}

proof fn lemma_contents_fit(s: Seq<char>, width: int)
    requires
        is_single_spaced(s),
        line_laws::has_short_pieces(s, width),
        width >= 0,
    ensures
        forall|i: int|
            0 <= i < contents(s, width).len() ==> text::byte_len(#[trigger] contents(s, width)[i])
                <= width,
{
    let lines = render_laws::paragraph_lines(s, width);
    let cs = contents(s, width);
    lemma_paragraph_fits(s, width);
    assert forall|i: int| 0 <= i < cs.len() implies text::byte_len(#[trigger] cs[i]) <= width by {
        let c = cs[i];
        assert(text::byte_len(lines[i]) <= width);
        line_laws::lemma_trim_end_part(lines[i]);
        assert(lines[i] =~= c + lines[i].skip(c.len() as int));
        text::lemma_byte_len_concat(c, lines[i].skip(c.len() as int));
    }
}

/// A paragraph of single-spaced words is written on filled lines of the whole
/// width: each but the last could not have taken the next word. The lines have the
/// words of the text in order, none is longer than the width if the words are short
/// enough, and each comes behind the prefix.
pub proof fn law_paragraph_filled(prefix: Seq<char>, max_width: nat, s: Seq<char>)
    requires
        is_single_spaced(s),
    ensures
        exists|lines: Seq<Seq<char>>| #[trigger]
            are_good_lines(s, max_width, lines) && render::rendered(
                prefix,
                max_width,
                seq![EventView::Start(TagView::Paragraph), EventView::Text(s), EventView::End],
            ) == Some(comment::join(lines.map_values(|c: Seq<char>| prefix + c))),
{
    let width = max_width as int;
    let lines = render_laws::paragraph_lines(s, width);
    let cs = contents(s, width);
    let one = seq![s];
    render_laws::law_paragraphs(prefix, max_width, one);
    assert(one.drop_last() =~= Seq::<Seq<char>>::empty());
    assert(render_laws::paragraphs(one) =~= render_laws::paragraph(s)) by {
        reveal_with_fuel(render_laws::paragraphs, 2);
    }
    assert(render_laws::document_lines(prefix, width, one) == render_laws::behind(prefix, lines));
    assert(render_laws::behind(prefix, lines) =~= cs.map_values(|c: Seq<char>| prefix + c));
    lemma_contents_tight(s, width);
    lemma_contents_filled(s, width);
    lemma_paragraph_words(s, width);
    line_laws::lemma_trimmed_words(lines);
    if line_laws::has_short_pieces(s, width) {
        lemma_contents_fit(s, width);
    }
    assert forall|i: int| 0 <= i < cs.len() implies is_spaced(#[trigger] cs[i])
        && text_laws::is_tight(cs[i]) by {
        assert(is_nearly_tight(lines[i]));
    }
    assert(are_good_lines(s, max_width, cs));
}

} // verus!
