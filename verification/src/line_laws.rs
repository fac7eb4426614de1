//! What breaking text over lines keeps: its characters, and the width.
use vstd::prelude::*;
use crate::line::{self, Wrapped};
use crate::text;

verus! {

/// The solid characters of `s`, those that are no white space, in order.
pub open spec fn solid(s: Seq<char>) -> Seq<char>
    decreases s.len(),
{
    if s.len() == 0 {
        Seq::empty()
    } else if text::white_space(s.last()) {
        solid(s.drop_last())
    } else {
        solid(s.drop_last()).push(s.last())
    }
}

/// Lines one behind the other.
pub open spec fn concat(lines: Seq<Seq<char>>) -> Seq<char>
    decreases lines.len(),
{
    if lines.len() == 0 {
        Seq::empty()
    } else {
        lines[0] + concat(lines.drop_first())
    }
}

/// The solid characters of two texts, one behind the other.
pub proof fn lemma_solid_concat(a: Seq<char>, b: Seq<char>)
    ensures
        solid(a + b) == solid(a) + solid(b),
    decreases b.len(),
{
    if b.len() == 0 {
        assert(a + b =~= a);
        assert(solid(a) + solid(b) =~= solid(a));
    } else {
        assert((a + b).drop_last() =~= a + b.drop_last());
        lemma_solid_concat(a, b.drop_last());
        assert(solid(a + b) =~= solid(a) + solid(b));
    }
}

/// Trimming the end takes white space alone.
pub proof fn lemma_solid_trim_end(s: Seq<char>)
    ensures
        solid(text::trim_end(s)) == solid(s),
    decreases s.len(),
{
    if s.len() > 0 && text::white_space(s.last()) {
        lemma_solid_trim_end(s.drop_last());
    }
}

proof fn lemma_solid_trim_start(s: Seq<char>)
    ensures
        solid(text::trim_start(s)) == solid(s),
    decreases s.len(),
{
    if s.len() > 0 && text::white_space(s[0]) {
        lemma_solid_trim_start(s.drop_first());
        assert(s =~= seq![s[0]] + s.drop_first());
        lemma_solid_concat(seq![s[0]], s.drop_first());
        assert(seq![s[0]].drop_last() =~= Seq::<char>::empty());
        assert(solid(seq![s[0]]) =~= Seq::<char>::empty()) by {
            reveal_with_fuel(solid, 2);
        }
        assert(Seq::<char>::empty() + solid(s.drop_first()) =~= solid(s.drop_first()));
    }
}

/// Trimming takes white space alone.
pub proof fn lemma_solid_trim(s: Seq<char>)
    ensures
        solid(text::trim(s)) == solid(s),
{
    lemma_solid_trim_end(s);
    lemma_solid_trim_start(text::trim_end(s));
}

proof fn lemma_solid_line_then(line: Seq<char>, w: Wrapped)
    ensures
        solid(concat(line::line_then(line, w).lines) + w.rest) == solid(line) + solid(
            concat(w.lines) + w.rest,
        ),
{
    let lines = seq![line] + w.lines;
    assert(lines.drop_first() =~= w.lines);
    assert(concat(lines) + w.rest =~= line + (concat(w.lines) + w.rest));
    lemma_solid_concat(line, concat(w.lines) + w.rest);
}

/// Breaking text over lines loses no solid character, adds none, and keeps their
/// order.
pub proof fn law_wrap_keeps_text(buffer: Seq<char>, s: Seq<char>, width: int)
    ensures
        ({
            let w = line::wrap(buffer, s, width);
            solid(concat(w.lines) + w.rest) == solid(buffer + s)
        }),
    decreases s.len(), (if buffer.len() > 0 { 1int } else { 0int }),
{
    let w = line::wrap(buffer, s, width);
    let used = text::byte_len(buffer) as int;
    if s.len() == 0 {
        assert(concat(w.lines) + w.rest =~= buffer + s);
    } else if used + text::byte_len(s) <= width {
        assert(concat(w.lines) + w.rest =~= buffer + s);
    } else {
        line::lemma_last_break(used, s, width, s.len() as int);
        match line::last_break(used, s, width, s.len() as int) {
            Some(b) => {
                let rest = text::trim(s.skip(b));
                line::lemma_trim_len(s.skip(b));
                law_wrap_keeps_text(Seq::empty(), rest, width);
                lemma_solid_line_then(buffer + s.take(b), line::wrap(Seq::empty(), rest, width));
                assert(Seq::<char>::empty() + rest =~= rest);
                lemma_solid_trim(s.skip(b));
                assert(buffer + s =~= (buffer + s.take(b)) + s.skip(b));
                lemma_solid_concat(buffer + s.take(b), s.skip(b));
            },
            None => {
                if buffer.len() > 0 {
                    let rest = text::trim(s);
                    line::lemma_trim_len(s);
                    law_wrap_keeps_text(Seq::empty(), rest, width);
                    lemma_solid_line_then(buffer, line::wrap(Seq::empty(), rest, width));
                    assert(Seq::<char>::empty() + rest =~= rest);
                    lemma_solid_trim(s);
                    lemma_solid_concat(buffer, s);
                } else {
                    assert(seq![s].drop_first() =~= Seq::<Seq<char>>::empty());
                    assert(concat(w.lines) + w.rest =~= buffer + s) by {
                        reveal_with_fuel(concat, 2);
                    }
                }
            },
        }
    }
}

/// No line can be broken off that stays below the width: no space is near enough
/// to the start.
pub open spec fn is_unbroken(s: Seq<char>, width: int) -> bool {
    forall|b: int| 0 < b <= s.len() && s[b - 1] == ' ' ==> text::byte_len(#[trigger] s.take(b)) >= width
}

/// The line keeps to the width, or is `buffer`, or cannot be broken.
pub open spec fn is_fitting(line: Seq<char>, buffer: Seq<char>, width: int) -> bool {
    ||| text::byte_len(line) < width
    ||| line == buffer
    ||| is_unbroken(line, width)
}

/// Every line that breaking makes stays below the width, unless it was there
/// before, or has no space to break it at. What is left fits.
pub proof fn law_wrap_fits(buffer: Seq<char>, s: Seq<char>, width: int)
    ensures
        ({
            let w = line::wrap(buffer, s, width);
            &&& forall|i: int| 0 <= i < w.lines.len() ==> is_fitting(#[trigger] w.lines[i], buffer, width)
            &&& text::byte_len(w.rest) <= width || w.rest == buffer || w.rest.len() == 0
        }),
    decreases s.len(), (if buffer.len() > 0 { 1int } else { 0int }),
{
    let w = line::wrap(buffer, s, width);
    let used = text::byte_len(buffer) as int;
    if s.len() == 0 {
    } else if used + text::byte_len(s) <= width {
        text::lemma_byte_len_concat(buffer, s);
    } else {
        let found = line::last_break(used, s, width, s.len() as int);
        line::lemma_last_break(used, s, width, s.len() as int);
        if found is None && buffer.len() == 0 {
            assert(used == 0) by {
                text::lemma_byte_len_bounds(buffer);
            }
            assert forall|b: int| 0 < b <= s.len() && s[b - 1] == ' ' implies text::byte_len(
                #[trigger] s.take(b),
            ) >= width by {}
            assert(is_unbroken(s, width));
        } else {
            let (line, rest) = match found {
                Some(b) => (buffer + s.take(b), text::trim(s.skip(b))),
                None => (buffer, text::trim(s)),
            };
            if let Some(b) = found {
                text::lemma_byte_len_concat(buffer, s.take(b));
                line::lemma_trim_len(s.skip(b));
            }
            line::lemma_trim_len(s);
            law_wrap_fits(Seq::empty(), rest, width);
            let more = line::wrap(Seq::empty(), rest, width);
            assert forall|i: int| 0 <= i < w.lines.len() implies is_fitting(
                #[trigger] w.lines[i],
                buffer,
                width,
            ) by {
                if i == 0 {
                    assert(w.lines[0] == line);
                } else {
                    assert(w.lines[i] == more.lines[i - 1]);
                    assert(is_fitting(more.lines[i - 1], Seq::empty(), width));
                    if more.lines[i - 1] == Seq::<char>::empty() {
                        assert(is_unbroken(w.lines[i], width));
                    }
                }
            }
        }
    }
}

/// Behind what stays on one line the buffer keeps to the width, unless that alone
/// does not fit.
pub proof fn law_unbreakable_fits(w: line::World, l: int, s: Seq<char>)
    ensures
        ({
            let v = line::unbreakable(w, l, s);
            text::byte_len(v.buffer) <= line::width(w.lines[l]) || v.buffer == s
        }),
{
    text::lemma_byte_len_concat(w.buffer, s);
    let v = line::flushed(w, l);
    assert(v.buffer.len() == 0 ==> v.buffer + s =~= s);
}

/// White space never fills a line: there is still room behind it, or the line has
/// ended.
pub proof fn law_whitespace_fits(w: line::World, l: int, s: Seq<char>)
    ensures
        ({
            let v = line::whitespace(w, l, s);
            text::byte_len(v.buffer) < line::width(w.lines[l]) || v.buffer.len() == 0
        }),
{
    text::lemma_byte_len_concat(w.buffer, s);
}

/// The words of `s`: what stands between white space.
pub open spec fn words(s: Seq<char>) -> Seq<Seq<char>>
    decreases s.len(),
{
    if s.len() == 0 {
        Seq::empty()
    } else {
        let before = words(s.drop_last());
        if text::white_space(s.last()) {
            before
        } else if s.len() > 1 && !text::white_space(s[s.len() - 2]) {
            before.drop_last().push(before.last().push(s.last()))
        } else {
            before.push(seq![s.last()])
        }
    }
}

/// The words of lines, one line after the other.
pub open spec fn words_of(lines: Seq<Seq<char>>) -> Seq<Seq<char>>
    decreases lines.len(),
{
    if lines.len() == 0 {
        Seq::empty()
    } else {
        words(lines[0]) + words_of(lines.drop_first())
    }
}

/// No word goes over from `a` to `b`.
pub open spec fn is_parted(a: Seq<char>, b: Seq<char>) -> bool {
    a.len() == 0 || b.len() == 0 || text::white_space(a.last()) || text::white_space(b[0])
}

proof fn lemma_last_word(s: Seq<char>)
    ensures
        s.len() > 0 && !text::white_space(s.last()) ==> words(s).len() > 0,
    decreases s.len(),
{
    if s.len() > 1 {
        lemma_last_word(s.drop_last());
    }
}

/// The words of two texts, one behind the other.
pub proof fn lemma_words_concat(a: Seq<char>, b: Seq<char>)
    requires
        is_parted(a, b),
    ensures
        words(a + b) == words(a) + words(b),
    decreases b.len(),
{
    if b.len() == 0 {
        assert(a + b =~= a);
        assert(words(a) + words(b) =~= words(a));
    } else {
        let some = b.drop_last();
        assert((a + b).drop_last() =~= a + some);
        lemma_words_concat(a, some);
        lemma_last_word(some);
        if some.len() > 0 {
            assert((a + b)[(a + b).len() - 2] == some.last());
            assert(b[b.len() - 2] == some.last());
        } else if a.len() > 0 {
            assert((a + b)[(a + b).len() - 2] == a.last());
        }
        assert(words(a + b) =~= words(a) + words(b));
    }
}

/// Trimming the end keeps the words.
pub proof fn lemma_words_trim_end(s: Seq<char>)
    ensures
        words(text::trim_end(s)) == words(s),
    decreases s.len(),
{
    if s.len() > 0 && text::white_space(s.last()) {
        lemma_words_trim_end(s.drop_last());
    }
}

proof fn lemma_words_trim_start(s: Seq<char>)
    ensures
        words(text::trim_start(s)) == words(s),
    decreases s.len(),
{
    if s.len() > 0 && text::white_space(s[0]) {
        lemma_words_trim_start(s.drop_first());
        assert(s =~= seq![s[0]] + s.drop_first());
        lemma_words_concat(seq![s[0]], s.drop_first());
        assert(seq![s[0]].drop_last() =~= Seq::<char>::empty());
        assert(words(seq![s[0]]) =~= Seq::<Seq<char>>::empty()) by {
            reveal_with_fuel(words, 2);
        }
        assert(Seq::<Seq<char>>::empty() + words(s.drop_first()) =~= words(s.drop_first()));
    }
}

/// Trimming keeps the words.
pub proof fn lemma_words_trim(s: Seq<char>)
    ensures
        words(text::trim(s)) == words(s),
{
    lemma_words_trim_end(s);
    lemma_words_trim_start(text::trim_end(s));
}

/// Breaking text over lines, behind what stands on the first of them, keeps its
/// words: none is lost, added, broken or joined with another, and they stay in
/// order. Where a word goes on from what stands there into the text, it may be
/// broken between the two.
pub proof fn law_wrap_keeps_words(buffer: Seq<char>, s: Seq<char>, width: int)
    requires
        is_parted(buffer, s),
    ensures
        ({
            let w = line::wrap(buffer, s, width);
            words_of(w.lines) + words(w.rest) == words(buffer + s)
        }),
    decreases s.len(), (if buffer.len() > 0 { 1int } else { 0int }),
{
    let w = line::wrap(buffer, s, width);
    let used = text::byte_len(buffer) as int;
    if s.len() == 0 || used + text::byte_len(s) <= width {
        assert(w.rest =~= buffer + s);
        assert(words_of(w.lines) + words(w.rest) =~= words(buffer + s));
    } else {
        line::lemma_last_break(used, s, width, s.len() as int);
        let found = line::last_break(used, s, width, s.len() as int);
        if found is None && buffer.len() == 0 {
            assert(buffer + s =~= s);
            assert(w.lines.drop_first() =~= Seq::<Seq<char>>::empty());
            assert(words_of(w.lines) + words(w.rest) =~= words(s)) by {
                reveal_with_fuel(words_of, 2);
            }
        } else {
            let (line, rest) = match found {
                Some(b) => (buffer + s.take(b), s.skip(b)),
                None => (buffer, s),
            };
            let next = text::trim(rest);
            let more = line::wrap(Seq::empty(), next, width);
            line::lemma_trim_len(rest);
            law_wrap_keeps_words(Seq::empty(), next, width);
            assert(Seq::<char>::empty() + next =~= next);
            lemma_words_trim(rest);
            assert(buffer + s =~= line + rest);
            lemma_words_concat(line, rest);
            assert(w.lines.drop_first() =~= more.lines);
            assert(words_of(w.lines) + words(w.rest) =~= words(line) + (words_of(more.lines)
                + words(more.rest)));
        }
    }
}

/// Every piece of `s` without a space is at least two bytes shorter than the width.
pub open spec fn has_short_pieces(s: Seq<char>, width: int) -> bool {
    forall|i: int, j: int|
        0 <= i <= j <= s.len() && !(#[trigger] s.subrange(i, j)).contains(' ') ==> text::byte_len(
            s.subrange(i, j),
        ) + 2 <= width
}

proof fn lemma_part_short(s: Seq<char>, a: int, b: int, width: int)
    requires
        has_short_pieces(s, width),
        0 <= a <= b <= s.len(),
    ensures
        has_short_pieces(s.subrange(a, b), width),
{
    let t = s.subrange(a, b);
    assert forall|i: int, j: int|
        0 <= i <= j <= t.len() && !(#[trigger] t.subrange(i, j)).contains(
            ' ',
        ) implies text::byte_len(t.subrange(i, j)) + 2 <= width by {
        assert(t.subrange(i, j) =~= s.subrange(a + i, a + j));
    }
}

/// Trimming the end leaves the front of a text.
pub proof fn lemma_trim_end_part(s: Seq<char>)
    ensures
        text::trim_end(s).len() <= s.len(),
        text::trim_end(s) == s.subrange(0, text::trim_end(s).len() as int),
    decreases s.len(),
{
    if s.len() > 0 && text::white_space(s.last()) {
        lemma_trim_end_part(s.drop_last());
        assert(text::trim_end(s) =~= s.subrange(0, text::trim_end(s).len() as int));
    } else {
        assert(s =~= s.subrange(0, s.len() as int));
    }
}

proof fn lemma_trim_start_part(s: Seq<char>)
    ensures
        text::trim_start(s).len() <= s.len(),
        text::trim_start(s) == s.subrange(s.len() - text::trim_start(s).len(), s.len() as int),
    decreases s.len(),
{
    if s.len() > 0 && text::white_space(s[0]) {
        lemma_trim_start_part(s.drop_first());
        assert(text::trim_start(s) =~= s.subrange(
            s.len() - text::trim_start(s).len(),
            s.len() as int,
        ));
    } else {
        assert(s =~= s.subrange(0, s.len() as int));
    }
}

/// The pieces of a text that is trimmed are not longer.
pub proof fn lemma_trim_short(s: Seq<char>, width: int)
    requires
        has_short_pieces(s, width),
    ensures
        has_short_pieces(text::trim(s), width),
{
    let t = text::trim_end(s);
    lemma_trim_end_part(s);
    lemma_part_short(s, 0, t.len() as int, width);
    lemma_trim_start_part(t);
    lemma_part_short(t, t.len() - text::trim(s).len(), t.len() as int, width);
}

/// A text that does not fit can be broken, if its pieces are short.
proof fn lemma_short_breaks(s: Seq<char>, width: int)
    requires
        has_short_pieces(s, width),
        text::byte_len(s) > width,
    ensures
        line::last_break(0, s, width, s.len() as int) is Some,
{
    let k = text::find(s, ' ') as int;
    text::lemma_find(s, ' ');
    let piece = s.subrange(0, k);
    assert(!piece.contains(' '));
    assert(text::byte_len(piece) + 2 <= width);
    if k >= s.len() {
        assert(piece =~= s);
    } else {
        assert(s.take(k + 1) =~= piece + seq![' ']);
        text::lemma_byte_len_concat(piece, seq![' ']);
        text::lemma_byte_len_one(' ');
        assert(text::byte_len(seq![' ']) == 1) by {
            reveal_with_fuel(vstd::utf8::encode_utf8, 2);
            assert(seq![' '].drop_first() =~= Seq::<char>::empty());
        }
        line::lemma_last_break(0, s, width, s.len() as int);
    }
}

/// Where each piece between spaces is at least two bytes shorter than the width,
/// breaking text over lines makes no line longer than the width, if what stands on
/// the first of them is not.
pub proof fn law_wrap_never_over(buffer: Seq<char>, s: Seq<char>, width: int)
    requires
        has_short_pieces(s, width),
        text::byte_len(buffer) <= width,
    ensures
        ({
            let w = line::wrap(buffer, s, width);
            &&& forall|i: int|
                0 <= i < w.lines.len() ==> text::byte_len(#[trigger] w.lines[i]) <= width
            &&& text::byte_len(w.rest) <= width
        }),
    decreases s.len(), (if buffer.len() > 0 { 1int } else { 0int }),
{
    let w = line::wrap(buffer, s, width);
    let used = text::byte_len(buffer) as int;
    let none = Seq::<char>::empty();
    text::lemma_byte_len_bounds(none);
    text::lemma_byte_len_concat(buffer, s);
    if s.len() > 0 && used + text::byte_len(s) > width {
        line::lemma_last_break(used, s, width, s.len() as int);
        let found = line::last_break(used, s, width, s.len() as int);
        if found is None && buffer.len() == 0 {
            assert(buffer =~= none);
            lemma_short_breaks(s, width);
        } else {
            let (line, at) = match found {
                Some(b) => (buffer + s.take(b), b),
                None => (buffer, 0),
            };
            let rest = s.skip(at);
            let next = text::trim(rest);
            let more = line::wrap(none, next, width);
            text::lemma_byte_len_concat(buffer, s.take(at));
            assert(s.skip(0) =~= s);
            line::lemma_trim_len(rest);
            lemma_part_short(s, at, s.len() as int, width);
            assert(rest =~= s.subrange(at, s.len() as int));
            lemma_trim_short(rest, width);
            law_wrap_never_over(none, next, width);
            assert forall|i: int| 0 <= i < w.lines.len() implies text::byte_len(
                #[trigger] w.lines[i],
            ) <= width by {
                if i > 0 {
                    assert(w.lines[i] == more.lines[i - 1]);
                } else {
                    assert(w.lines[0] == line);
                }
            }
        }
    }
}

/// The words of lines, and of further lines.
pub proof fn lemma_words_of_concat(a: Seq<Seq<char>>, b: Seq<Seq<char>>)
    ensures
        words_of(a + b) == words_of(a) + words_of(b),
    decreases a.len(),
{
    if a.len() == 0 {
        assert(a + b =~= b);
        assert(words_of(a) + words_of(b) =~= words_of(b));
    } else {
        assert((a + b).drop_first() =~= a.drop_first() + b);
        lemma_words_of_concat(a.drop_first(), b);
        assert(words_of(a + b) =~= words_of(a) + words_of(b));
    }
}

/// The words of lines, and of one more.
pub proof fn lemma_words_of_push(lines: Seq<Seq<char>>, line: Seq<char>)
    ensures
        words_of(lines.push(line)) == words_of(lines) + words(
            line,
        ),
{
    lemma_words_of_concat(lines, seq![line]);
    assert(lines.push(line) =~= lines + seq![line]);
    assert(seq![line].drop_first() =~= Seq::<Seq<char>>::empty());
    reveal_with_fuel(words_of, 2);
    assert(words_of(seq![line]) =~= words(line));
}

/// Trimming each of the lines keeps their words.
pub proof fn lemma_trimmed_words(lines: Seq<Seq<char>>)
    ensures
        words_of(lines.map_values(|c: Seq<char>| text::trim_end(c)))
            == words_of(lines),
    decreases lines.len(),
{
    let trimmed = lines.map_values(|c: Seq<char>| text::trim_end(c));
    if lines.len() > 0 {
        lemma_words_trim_end(lines[0]);
        lemma_trimmed_words(lines.drop_first());
        assert(trimmed.drop_first() =~= lines.drop_first().map_values(
            |c: Seq<char>| text::trim_end(c),
        ));
    } else {
        assert(trimmed =~= lines);
    }
}

} // verus!
