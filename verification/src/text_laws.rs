//! What trimming, joining and splitting text do to its characters.
use vstd::prelude::*;
use crate::comment;
use crate::text;

verus! {

/// Only white space, and no line feed.
pub open spec fn is_pad(s: Seq<char>) -> bool {
    forall|i: int| 0 <= i < s.len() ==> text::white_space(#[trigger] s[i]) && s[i] != '\n'
}

/// `s` neither starts nor ends with white space.
pub open spec fn is_tight(s: Seq<char>) -> bool {
    s.len() > 0 ==> !text::white_space(s[0]) && !text::white_space(s[s.len() - 1])
}

/// White space at the end is taken off, all of it and nothing else: what is left is
/// the text in front of it.
pub proof fn law_trim_end(s: Seq<char>, space: Seq<char>)
    requires
        s.len() > 0 ==> !text::white_space(s[s.len() - 1]),
        forall|i: int| 0 <= i < space.len() ==> text::white_space(#[trigger] space[i]),
    ensures
        text::trim_end(s + space) == s,
    decreases space.len(),
{
    let all = s + space;
    if space.len() == 0 {
        assert(all =~= s);
    } else {
        assert(text::white_space(space[space.len() - 1]));
        assert(all.drop_last() =~= s + space.drop_last());
        assert forall|i: int| 0 <= i < space.drop_last().len() implies text::white_space(
            #[trigger] space.drop_last()[i],
        ) by {
            assert(text::white_space(space[i]));
        }
        law_trim_end(s, space.drop_last());
    }
}

/// White space at the start is taken off, all of it and nothing else.
pub proof fn law_trim_start(space: Seq<char>, s: Seq<char>)
    requires
        s.len() > 0 ==> !text::white_space(s[0]),
        forall|i: int| 0 <= i < space.len() ==> text::white_space(#[trigger] space[i]),
    ensures
        text::trim_start(space + s) == s,
    decreases space.len(),
{
    let all = space + s;
    if space.len() == 0 {
        assert(all =~= s);
    } else {
        assert(text::white_space(space[0]));
        assert(all.drop_first() =~= space.drop_first() + s);
        assert forall|i: int| 0 <= i < space.drop_first().len() implies text::white_space(
            #[trigger] space.drop_first()[i],
        ) by {
            assert(text::white_space(space[i + 1]));
        }
        law_trim_start(space.drop_first(), s);
    }
}

/// White space around a text is taken off, all of it and nothing else.
pub proof fn law_trim(before: Seq<char>, s: Seq<char>, behind: Seq<char>)
    requires
        is_tight(s),
        forall|i: int| 0 <= i < before.len() ==> text::white_space(#[trigger] before[i]),
        forall|i: int| 0 <= i < behind.len() ==> text::white_space(#[trigger] behind[i]),
    ensures
        text::trim(before + s + behind) == s,
{
    if s.len() > 0 {
        law_trim_end(before + s, behind);
        law_trim_start(before, s);
    } else {
        let all = before + s + behind;
        assert forall|i: int| 0 <= i < all.len() implies text::white_space(#[trigger] all[i]) by {
            if i < before.len() {
                assert(text::white_space(before[i]));
            } else {
                assert(text::white_space(behind[i - before.len()]));
            }
        }
        law_trim_end(Seq::empty(), all);
        assert(Seq::<char>::empty() + all =~= all);
        assert(text::trim_start(Seq::empty()) =~= s);
    }
}

/// A line of a text, and whether a carriage return comes before its line feed.
pub struct EndedLine {
    pub line: Seq<char>,
    pub returned: bool,
}

/// The line as it stands in the text, with its end.
pub open spec fn ended(l: EndedLine) -> Seq<char> {
    l.line + (if l.returned {
        seq!['\r', '\n']
    } else {
        seq!['\n']
    })
}

/// Lines one behind the other, each with its end.
pub open spec fn ended_text(lines: Seq<EndedLine>) -> Seq<char>
    decreases lines.len(),
{
    if lines.len() == 0 {
        Seq::empty()
    } else {
        ended(lines[0]) + ended_text(lines.drop_first())
    }
}

/// The line holds no line feed, and if its end is a line feed alone, no carriage
/// return comes before that.
pub open spec fn is_ended_line(l: EndedLine) -> bool {
    &&& forall|i: int| 0 <= i < l.line.len() ==> (#[trigger] l.line[i]) != '\n'
    &&& !l.returned && l.line.len() > 0 ==> l.line[l.line.len() - 1] != '\r'
}

/// The lines of a text are what stands between its line feeds, character by
/// character. A carriage return before a line feed is part of the end of the line,
/// and so is no other. What is behind the last line feed is a line, unless it is
/// empty.
pub proof fn law_lines(lines: Seq<EndedLine>, last: Seq<char>)
    requires
        forall|i: int| 0 <= i < lines.len() ==> is_ended_line(#[trigger] lines[i]),
        forall|i: int| 0 <= i < last.len() ==> (#[trigger] last[i]) != '\n',
    ensures
        text::text_lines(ended_text(lines) + last) == lines.map_values(|l: EndedLine| l.line) + (
        if last.len() == 0 {
            Seq::<Seq<char>>::empty()
        } else {
            seq![last]
        }),
    decreases lines.len(),
{
    let s = ended_text(lines) + last;
    let texts = lines.map_values(|l: EndedLine| l.line);
    if lines.len() == 0 {
        assert(s =~= last);
        text::lemma_find_is(last, '\n', last.len() as int);
        assert(texts + seq![last] =~= seq![last]);
        assert(texts + Seq::<Seq<char>>::empty() =~= Seq::<Seq<char>>::empty());
    } else {
        let l = lines[0];
        let rest = lines.drop_first();
        assert(is_ended_line(lines[0]));
        assert forall|i: int| 0 <= i < rest.len() implies is_ended_line(#[trigger] rest[i]) by {
            assert(is_ended_line(lines[i + 1]));
        }
        law_lines(rest, last);
        let tail = ended_text(rest) + last;
        assert(s =~= ended(l) + tail);
        let k = ended(l).len() - 1;
        assert forall|i: int| 0 <= i < k implies s[i] != '\n' by {
            if i < l.line.len() {
                assert(s[i] == l.line[i]);
            }
        }
        text::lemma_find_is(s, '\n', k);
        assert(s.skip(k + 1) =~= tail);
        assert(text::strip_carriage_return(s.take(k)) =~= l.line);
        assert(texts.drop_first() =~= rest.map_values(|l: EndedLine| l.line));
        assert(texts =~= seq![l.line] + texts.drop_first());
        assert(text::text_lines(s) =~= texts + (if last.len() == 0 {
            Seq::<Seq<char>>::empty()
        } else {
            seq![last]
        }));
    }
}

/// Joining puts a line feed between two lines, and changes none of them: the first
/// line, a line feed, and the others joined.
pub proof fn law_join(first: Seq<char>, rest: Seq<Seq<char>>)
    ensures
        comment::join(seq![first]) == first,
        rest.len() > 0 ==> comment::join(seq![first] + rest) == first + seq!['\n'] + comment::join(
            rest,
        ),
    decreases rest.len(),
{
    if rest.len() == 1 {
        let all = seq![first] + rest;
        assert(all.drop_last() =~= seq![first]);
        assert(comment::join(seq![first]) == first);
        assert(all.last() == rest[0]);
        assert(comment::join(all) =~= first + seq!['\n'] + comment::join(rest));
    } else if rest.len() > 1 {
        let all = seq![first] + rest;
        law_join(first, rest.drop_last());
        let some = comment::join(rest.drop_last());
        assert(all.drop_last() =~= seq![first] + rest.drop_last());
        assert(all.last() == rest.last());
        assert(comment::join(rest) == some.push('\n') + rest.last());
        assert(comment::join(all) == (first + seq!['\n'] + some).push('\n') + rest.last());
        assert(comment::join(all) =~= first + seq!['\n'] + comment::join(rest));
    }
}

/// The first `c` of a text is found.
pub proof fn law_find(before: Seq<char>, c: char, behind: Seq<char>)
    requires
        forall|i: int| 0 <= i < before.len() ==> (#[trigger] before[i]) != c,
    ensures
        text::find(before + seq![c] + behind, c) == before.len(),
        text::find(before, c) == before.len(),
{
    let s = before + seq![c] + behind;
    assert forall|i: int| 0 <= i < before.len() implies s[i] != c by {
        assert(s[i] == before[i]);
    }
    text::lemma_find_is(s, c, before.len() as int);
    text::lemma_find_is(before, c, before.len() as int);
}

/// A character as often as it is asked for.
pub proof fn law_repeat(c: char, n: nat)
    ensures
        text::repeat(c, n).len() == n,
        forall|i: int| 0 <= i < n ==> #[trigger] text::repeat(c, n)[i] == c,
{
}

} // verus!
