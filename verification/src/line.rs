//! Lines of output: their prefixes, how text is broken over them, and how they
//! are written out.
use vstd::prelude::*;
use vstd::string::*;
use crate::text;

verus! {

/// How the lines of a part of the document are written.
#[derive(Debug)]
pub struct LineState_ {
    /// What comes before the next line, if not the prefix.
    pub first_prefix: Option<String>,
    /// What comes before each line.
    pub prefix: String,
    /// A line ends in a backslash.
    pub explicit_wrap: bool,
    /// How long a line may be, without its prefix.
    pub max_width: usize,
}

/// The model of a [`LineState_`].
pub struct LineView {
    pub first_prefix: Option<Seq<char>>,
    pub prefix: Seq<char>,
    pub explicit_wrap: bool,
    pub max_width: nat,
}

/// A text that may be absent.
pub open spec fn text_view(text: Option<String>) -> Option<Seq<char>> {
    match text {
        Some(s) => Some(s@),
        None => None,
    }
}

impl View for LineState_ {
    type V = LineView;

    open spec fn view(&self) -> LineView {
        LineView {
            first_prefix: text_view(self.first_prefix),
            prefix: self.prefix@,
            explicit_wrap: self.explicit_wrap,
            max_width: self.max_width as nat,
        }
    }
}

/// What all parts of the document have in common while it is written.
pub struct State {
    /// The line states made so far.
    pub lines: Vec<LineState_>,
    /// The line that is being filled.
    pub line_buffer: String,
    /// A line has been written, so that the next one goes on a new line.
    pub need_nl: bool,
}

/// The model of a [`State`] and of the output.
#[verifier::ext_equal]
pub struct World {
    pub lines: Seq<LineView>,
    pub buffer: Seq<char>,
    pub need_nl: bool,
    pub out: Seq<char>,
}

impl View for State {
    type V = World;

    /// The state before any output.
    open spec fn view(&self) -> World {
        World {
            lines: self.lines@.map_values(|l: LineState_| l@),
            buffer: self.line_buffer@,
            need_nl: self.need_nl,
            out: Seq::empty(),
        }
    }
}

/// The model of `state` and the output `out`.
pub open spec fn world(state: State, out: Seq<char>) -> World {
    World { out, ..state@ }
}

/// Where nothing has been written.
pub open spec fn blank() -> World {
    World { lines: Seq::empty(), buffer: Seq::empty(), need_nl: false, out: Seq::empty() }
}

/// A line state that several parts may share: what one of them does to it, the
/// others see.
#[derive(Clone, Copy, PartialEq, Eq, Debug, Structural)]
pub struct LineState {
    pub id: usize,
}

/// How much fits on a line.
pub open spec fn width(line: LineView) -> int {
    if line.explicit_wrap {
        line.max_width - 2
    } else {
        line.max_width as int
    }
}

/// The backslash fits on a line of this width.
pub open spec fn is_writable(line: LineView) -> bool {
    line.explicit_wrap ==> line.max_width >= 2
}

/// What comes before the next line.
pub open spec fn lead(line: LineView) -> Seq<char> {
    match line.first_prefix {
        Some(p) => p,
        None => line.prefix,
    }
}

/// A line as it is written: what comes before it, the text without trailing
/// white space, and the backslash.
pub open spec fn written(line: LineView, content: Seq<char>) -> Seq<char> {
    let wrap = if line.explicit_wrap {
        seq![' ', '\\']
    } else {
        Seq::empty()
    };
    lead(line) + text::trim_end(content) + wrap
}

/// Writes a line out; the buffer is empty after it.
pub open spec fn emit(w: World, l: int, content: Seq<char>) -> World {
    let line = w.lines[l];
    let nl = if w.need_nl {
        seq!['\n']
    } else {
        Seq::empty()
    };
    World {
        lines: w.lines.update(l, LineView { first_prefix: None, ..line }),
        buffer: Seq::empty(),
        need_nl: true,
        out: w.out + nl + written(line, content),
    }
}

/// Writes lines out, one after the other.
pub open spec fn emit_all(w: World, l: int, contents: Seq<Seq<char>>) -> World
    decreases contents.len(),
{
    if contents.len() == 0 {
        w
    } else {
        emit(emit_all(w, l, contents.drop_last()), l, contents.last())
    }
}

/// Writes the buffer out unless it is empty.
pub open spec fn flushed(w: World, l: int) -> World {
    if w.buffer.len() == 0 {
        w
    } else {
        emit(w, l, w.buffer)
    }
}

/// Adds to the buffer what stays on one line, on a new line if it does not fit.
pub open spec fn unbreakable(w: World, l: int, s: Seq<char>) -> World {
    let v = if text::byte_len(w.buffer) + text::byte_len(s) > width(w.lines[l]) {
        flushed(w, l)
    } else {
        w
    };
    World { buffer: v.buffer + s, ..v }
}

/// Adds white space to the buffer; where the line is full, the line ends instead.
pub open spec fn whitespace(w: World, l: int, s: Seq<char>) -> World {
    if text::byte_len(w.buffer) + text::byte_len(s) >= width(w.lines[l]) {
        flushed(w, l)
    } else {
        World { buffer: w.buffer + s, ..w }
    }
}

/// The last place among the first `n` characters where the text can be broken so
/// that the line, with `used` bytes on it, stays below the width: behind a space.
pub open spec fn last_break(used: int, s: Seq<char>, width: int, n: int) -> Option<int>
    decreases n,
{
    if n <= 0 {
        None
    } else if s[n - 1] == ' ' && used + text::byte_len(s.take(n)) < width {
        Some(n)
    } else {
        last_break(used, s, width, n - 1)
    }
}

/// Text broken over lines: the lines that are full, and the one that is not.
#[verifier::ext_equal]
pub struct Wrapped {
    pub lines: Seq<Seq<char>>,
    pub rest: Seq<char>,
}

/// A further line before those of `w`.
pub open spec fn line_then(line: Seq<char>, w: Wrapped) -> Wrapped {
    Wrapped { lines: seq![line] + w.lines, rest: w.rest }
}

/// `s` broken over lines of the given width, the first of which holds `buffer`.
/// What fits stays on the line. Else the line is broken at the last place where
/// it can be, or before `s`, and the rest starts a line, without white space
/// around it. What cannot be broken has a line of its own.
pub open spec fn wrap(buffer: Seq<char>, s: Seq<char>, width: int) -> Wrapped
    decreases s.len(), (if buffer.len() > 0 { 1int } else { 0int }),
{
    if s.len() == 0 {
        Wrapped { lines: Seq::empty(), rest: buffer }
    } else if text::byte_len(buffer) + text::byte_len(s) <= width {
        Wrapped { lines: Seq::empty(), rest: buffer + s }
    } else {
        proof {
            lemma_last_break(text::byte_len(buffer) as int, s, width, s.len() as int);
            lemma_trim_len(s);
            match last_break(text::byte_len(buffer) as int, s, width, s.len() as int) {
                Some(b) => {
                    lemma_trim_len(s.skip(b));
                },
                None => {},
            }
        }
        match last_break(text::byte_len(buffer) as int, s, width, s.len() as int) {
            Some(b) => line_then(buffer + s.take(b), wrap(Seq::empty(), text::trim(s.skip(b)), width)),
            None => if buffer.len() > 0 {
                line_then(buffer, wrap(Seq::empty(), text::trim(s), width))
            } else {
                Wrapped { lines: seq![s], rest: Seq::empty() }
            },
        }
    }
}

/// Adds text to the buffer, broken over lines where it does not fit. White space
/// around it is dropped where it starts a line.
pub open spec fn breakable(w: World, l: int, s: Seq<char>) -> World {
    let t = if w.buffer.len() == 0 {
        text::trim(s)
    } else {
        s
    };
    let wrapped = wrap(w.buffer, t, width(w.lines[l]));
    World { buffer: wrapped.rest, ..emit_all(w, l, wrapped.lines) }
}

/// A line state for a part within that of `l`, with what comes before its lines
/// added to what comes before those. The next line's own prefix passes to it.
pub open spec fn indented(
    line: LineView,
    first_prefix: Option<Seq<char>>,
    prefix: Seq<char>,
    explicit_wrap: bool,
) -> LineView {
    LineView {
        first_prefix: match (line.first_prefix, first_prefix) {
            (None, None) => None,
            (None, Some(p)) => Some(line.prefix + p),
            (Some(p), None) => Some(p),
            (Some(p1), Some(p2)) => Some(p1 + p2),
        },
        prefix: line.prefix + prefix,
        explicit_wrap: line.explicit_wrap || explicit_wrap,
        max_width: line.max_width,
    }
}

/// A further line state, which takes the next line's own prefix from that of `l`.
pub open spec fn with_line(w: World, l: int, line: LineView) -> World {
    World {
        lines: w.lines.update(l, LineView { first_prefix: None, ..w.lines[l] }).push(line),
        ..w
    }
}

/// The place found is one where the text can be broken, and none is later.
pub proof fn lemma_last_break(used: int, s: Seq<char>, width: int, n: int)
    requires
        n <= s.len(),
    ensures
        last_break(used, s, width, n) matches Some(b) ==> 0 < b <= n && s[b - 1] == ' ' && used
            + text::byte_len(s.take(b)) < width,
        forall|b: int|
            0 < b <= n && s[b - 1] == ' ' && used + text::byte_len(#[trigger] s.take(b)) < width ==> (
            last_break(used, s, width, n) matches Some(c) && b <= c),
    decreases n,
{
    if n > 0 {
        lemma_last_break(used, s, width, n - 1);
    }
}

/// Trimming makes no text longer.
pub proof fn lemma_trim_len(s: Seq<char>)
    ensures
        text::trim(s).len() <= s.len(),
{
    lemma_trim_end_len(s);
    lemma_trim_start_len(text::trim_end(s));
}

proof fn lemma_trim_end_len(s: Seq<char>)
    ensures
        text::trim_end(s).len() <= s.len(),
    decreases s.len(),
{
    if s.len() > 0 {
        lemma_trim_end_len(s.drop_last());
    }
}

proof fn lemma_trim_start_len(s: Seq<char>)
    ensures
        text::trim_start(s).len() <= s.len(),
    decreases s.len(),
{
    if s.len() > 0 {
        lemma_trim_start_len(s.drop_first());
    }
}

impl State {
    /// A state in which nothing has been written.
    pub fn new() -> (r: State)
        ensures
            r@ == blank(),
    {
        let r = State { lines: Vec::new(), line_buffer: String::new(), need_nl: false };
        assert(r@ =~= blank());
        r
    }
}

impl LineState {
    /// The handle is that of a line state that `state` holds.
    pub open spec fn valid(self, state: State) -> bool {
        self.id < state@.lines.len()
    }

    /// A line state of its own.
    pub fn new(
        state: &mut State,
        first_prefix: Option<String>,
        prefix: String,
        max_width: usize,
        explicit_wrap: bool,
    ) -> (r: LineState)
        ensures
            r.id == old(state)@.lines.len(),
            final(state)@ == (World {
                lines: old(state)@.lines.push(
                    LineView {
                        first_prefix: text_view(first_prefix),
                        prefix: prefix@,
                        explicit_wrap,
                        max_width: max_width as nat,
                    },
                ),
                ..old(state)@
            }),
    {
        let id: usize = state.lines.len();
        let ghost before = state.lines@;
        let line = LineState_ { first_prefix, prefix, explicit_wrap, max_width };
        state.lines.push(line);
        assert(before.push(line).map_values(|l: LineState_| l@) =~= before.map_values(
            |l: LineState_| l@,
        ).push(line@));
        LineState { id }
    }

    /// The same line state once more.
    pub fn share(&self) -> (r: LineState)
        ensures
            r == *self,
    {
        LineState { id: self.id }
    }

    /// Takes what comes before the next line only.
    fn take_first(&self, state: &mut State) -> (r: Option<String>)
        requires
            self.valid(*old(state)),
        ensures
            text_view(r) == old(state)@.lines[self.id as int].first_prefix,
            final(state)@ == (World {
                lines: old(state)@.lines.update(
                    self.id as int,
                    LineView { first_prefix: None, ..old(state)@.lines[self.id as int] },
                ),
                ..old(state)@
            }),
    {
        let ghost before = state.lines@;
        let r: Option<String> = state.lines[self.id].first_prefix.take();
        assert(state.lines@.map_values(|l: LineState_| l@) =~= before.map_values(
            |l: LineState_| l@,
        ).update(self.id as int, LineView { first_prefix: None, ..before[self.id as int]@ }));
        r
    }

    /// A line state with the same prefix, which takes what comes before the next
    /// line only.
    pub fn zero_indent(&self, state: &mut State) -> (r: LineState)
        requires
            self.valid(*old(state)),
        ensures
            r.id == old(state)@.lines.len(),
            final(state)@ == with_line(
                old(state)@,
                self.id as int,
                old(state)@.lines[self.id as int],
            ),
    {
        let first_prefix: Option<String> = self.take_first(state);
        assert(state@.lines.len() == state.lines@.len());
        let line: &LineState_ = &state.lines[self.id];
        assert(line@ == state@.lines[self.id as int]);
        let prefix: String = line.prefix.clone();
        let explicit_wrap: bool = line.explicit_wrap;
        let max_width: usize = line.max_width;
        LineState::new(state, first_prefix, prefix, max_width, explicit_wrap)
    }

    /// A line state for a part within, with prefixes added.
    pub fn indent(
        &self,
        state: &mut State,
        first_prefix: Option<String>,
        prefix: String,
        explicit_wrap: bool,
    ) -> (r: LineState)
        requires
            self.valid(*old(state)),
        ensures
            r.id == old(state)@.lines.len(),
            final(state)@ == with_line(
                old(state)@,
                self.id as int,
                indented(
                    old(state)@.lines[self.id as int],
                    text_view(first_prefix),
                    prefix@,
                    explicit_wrap,
                ),
            ),
    {
        let taken: Option<String> = self.take_first(state);
        assert(state@.lines.len() == state.lines@.len());
        let line: &LineState_ = &state.lines[self.id];
        assert(line@ == state@.lines[self.id as int]);
        let first: Option<String> = match (taken, first_prefix) {
            (None, None) => None,
            (None, Some(p)) => Some(line.prefix.clone().concat(p.as_str())),
            (Some(p), None) => Some(p),
            (Some(p1), Some(p2)) => Some(p1.concat(p2.as_str())),
        };
        let whole: String = line.prefix.clone().concat(prefix.as_str());
        let wrap: bool = line.explicit_wrap || explicit_wrap;
        let max_width: usize = line.max_width;
        LineState::new(state, first, whole, max_width, wrap)
    }

    /// Writes the buffer out, even if it is empty.
    pub fn flush_always(&self, state: &mut State, out: &mut String)
        requires
            self.valid(*old(state)),
        ensures
            world(*final(state), final(out)@) == emit(
                world(*old(state), old(out)@),
                self.id as int,
                old(state)@.buffer,
            ),
    {
        if state.need_nl {
            out.push('\n');
        }
        let first: Option<String> = self.take_first(state);
        assert(state@.lines.len() == state.lines@.len());
        let line: &LineState_ = &state.lines[self.id];
        assert(line@ == state@.lines[self.id as int]);
        match first {
            Some(p) => out.append(p.as_str()),
            None => out.append(line.prefix.as_str()),
        }
        let cs: Vec<char> = text::chars_of(state.line_buffer.as_str());
        let end: usize = text::trim_end_at(&cs, 0, cs.len());
        assert(cs@.subrange(0, cs@.len() as int) =~= cs@);
        text::push_range(out, &cs, 0, end);
        if line.explicit_wrap {
            out.push(' ');
            out.push('\\');
        }
        state.line_buffer = String::new();
        state.need_nl = true;
        proof {
            assert(world(*state, out@) =~= emit(
                world(*old(state), old(out)@),
                self.id as int,
                old(state)@.buffer,
            ));
        }
    }

    /// Writes the buffer out unless it is empty.
    pub fn flush(&self, state: &mut State, out: &mut String)
        requires
            self.valid(*old(state)),
        ensures
            world(*final(state), final(out)@) == flushed(
                world(*old(state), old(out)@),
                self.id as int,
            ),
    {
        if !state.line_buffer.as_str().is_empty() {
            self.flush_always(state, out);
        }
    }

    /// How much fits on a line.
    fn width_of(&self, state: &State) -> (r: usize)
        requires
            self.valid(*state),
            is_writable(state@.lines[self.id as int]),
        ensures
            r == width(state@.lines[self.id as int]),
    {
        assert(state@.lines.len() == state.lines@.len());
        let line: &LineState_ = &state.lines[self.id];
        assert(line@ == state@.lines[self.id as int]);
        if line.explicit_wrap {
            line.max_width - 2
        } else {
            line.max_width
        }
    }

    /// Something can be written to the line state.
    pub fn can_write(&self, state: &State) -> (r: bool)
        requires
            self.valid(*state),
        ensures
            r == is_writable(state@.lines[self.id as int]),
    {
        assert(state@.lines.len() == state.lines@.len());
        let line: &LineState_ = &state.lines[self.id];
        assert(line@ == state@.lines[self.id as int]);
        !line.explicit_wrap || line.max_width >= 2
    }

    /// Adds text to the buffer, broken over lines where it does not fit.
    pub fn write_breakable(&self, state: &mut State, out: &mut String, s: &str)
        requires
            self.valid(*old(state)),
            is_writable(old(state)@.lines[self.id as int]),
        ensures
            world(*final(state), final(out)@) == breakable(
                world(*old(state), old(out)@),
                self.id as int,
                s@,
            ),
    {
        let ghost w0 = world(*state, out@);
        let ghost l = self.id as int;
        let max: usize = self.width_of(state);
        let total: usize = text::len_of(s);
        let cs: Vec<char> = text::chars_of(s);
        let mut lo: usize = 0;
        let mut hi: usize = cs.len();
        assert(cs@.subrange(0, cs@.len() as int) =~= cs@);
        if state.line_buffer.as_str().is_empty() {
            let (a, b) = text::trim_range(&cs, 0, hi);
            lo = a;
            hi = b;
        }
        let ghost whole = wrap(w0.buffer, cs@.subrange(lo as int, hi as int), max as int);
        let ghost mut done: Seq<Seq<char>> = Seq::empty();
        assert(done + whole.lines =~= whole.lines);
        while lo < hi
            invariant
                self.valid(*state),
                l == self.id,
                0 <= l < w0.lines.len(),
                max == width(w0.lines[l]),
                lo <= hi <= cs@.len(),
                total == text::byte_len(cs@),
                world(*state, out@) == (World {
                    buffer: state.line_buffer@,
                    ..emit_all(w0, l, done)
                }),
                ({
                    let rest = wrap(
                        state.line_buffer@,
                        cs@.subrange(lo as int, hi as int),
                        max as int,
                    );
                    whole == (Wrapped { lines: done + rest.lines, rest: rest.rest })
                }),
            decreases hi - lo, (if state.line_buffer@.len() > 0 { 1int } else { 0int }),
        {
            let ghost rest = cs@.subrange(lo as int, hi as int);
            let ghost before = state.line_buffer@;
            let ghost wrapped = wrap(before, rest, max as int);
            let used: usize = text::len_of(state.line_buffer.as_str());
            let extra: usize = range_width(&cs, lo, hi, total);
            if used > max || extra > max - used {
                match find_break(&cs, lo, hi, used, max, total) {
                    Some(b) => {
                        text::push_range(&mut state.line_buffer, &cs, lo, b);
                        let ghost full = state.line_buffer@;
                        self.flush(state, out);
                        let (ta, tb) = text::trim_range(&cs, b, hi);
                        proof {
                            lemma_trim_len(cs@.subrange(b as int, hi as int));
                            assert(rest.take(b - lo) =~= cs@.subrange(lo as int, b as int));
                            assert(rest.skip(b - lo) =~= cs@.subrange(b as int, hi as int));
                            lemma_emit_more(w0, l, done, full);
                            assert(done + wrapped.lines =~= done.push(full) + wrap(
                                Seq::empty(),
                                cs@.subrange(ta as int, tb as int),
                                max as int,
                            ).lines);
                            done = done.push(full);
                        }
                        lo = ta;
                        hi = tb;
                    },
                    None => {
                        if !state.line_buffer.as_str().is_empty() {
                            self.flush(state, out);
                            let (ta, tb) = text::trim_range(&cs, lo, hi);
                            proof {
                                lemma_trim_len(rest);
                                lemma_emit_more(w0, l, done, before);
                                assert(done + wrapped.lines =~= done.push(before) + wrap(
                                    Seq::empty(),
                                    cs@.subrange(ta as int, tb as int),
                                    max as int,
                                ).lines);
                                done = done.push(before);
                            }
                            lo = ta;
                            hi = tb;
                        } else {
                            text::push_range(&mut state.line_buffer, &cs, lo, hi);
                            assert(state.line_buffer@ =~= rest);
                            self.flush(state, out);
                            proof {
                                lemma_emit_more(w0, l, done, rest);
                                assert(cs@.subrange(hi as int, hi as int).len() == 0);
                                assert(done + wrapped.lines =~= done.push(rest) + Seq::<Seq<char>>::empty());
                                done = done.push(rest);
                            }
                            lo = hi;
                        }
                    },
                }
            } else {
                text::push_range(&mut state.line_buffer, &cs, lo, hi);
                assert(cs@.subrange(hi as int, hi as int).len() == 0);
                lo = hi;
            }
        }
    }

    /// Adds to the buffer what stays on one line.
    pub fn write_unbreakable(&self, state: &mut State, out: &mut String, s: &str)
        requires
            self.valid(*old(state)),
            is_writable(old(state)@.lines[self.id as int]),
        ensures
            world(*final(state), final(out)@) == unbreakable(
                world(*old(state), old(out)@),
                self.id as int,
                s@,
            ),
    {
        let max: usize = self.width_of(state);
        let used: usize = text::len_of(state.line_buffer.as_str());
        let extra: usize = text::len_of(s);
        if used > max || extra > max - used {
            self.flush(state, out);
        }
        state.line_buffer.append(s);
    }

    /// Adds white space to the buffer, or ends the line where it is full.
    pub fn write_whitespace(&self, state: &mut State, out: &mut String, s: &str)
        requires
            self.valid(*old(state)),
            is_writable(old(state)@.lines[self.id as int]),
        ensures
            world(*final(state), final(out)@) == whitespace(
                world(*old(state), old(out)@),
                self.id as int,
                s@,
            ),
    {
        let max: usize = self.width_of(state);
        let used: usize = text::len_of(state.line_buffer.as_str());
        let extra: usize = text::len_of(s);
        if used > max || extra >= max - used {
            self.flush(state, out);
        } else {
            state.line_buffer.append(s);
        }
    }

    /// Writes an empty line out.
    pub fn write_newline(&self, state: &mut State, out: &mut String)
        requires
            self.valid(*old(state)),
            old(state)@.buffer.len() == 0,
        ensures
            world(*final(state), final(out)@) == emit(
                world(*old(state), old(out)@),
                self.id as int,
                Seq::empty(),
            ),
    {
        assert(state@.buffer =~= Seq::<char>::empty());
        self.flush_always(state, out);
    }
}

/// One more line written out.
proof fn lemma_emit_more(w: World, l: int, done: Seq<Seq<char>>, content: Seq<char>)
    ensures
        emit_all(w, l, done.push(content)) == emit(emit_all(w, l, done), l, content),
{
    assert(done.push(content).drop_last() =~= done);
}

/// The byte length of `lo..hi`, in a text of `total` bytes.
fn range_width(cs: &Vec<char>, lo: usize, hi: usize, total: usize) -> (r: usize)
    requires
        lo <= hi <= cs@.len(),
        total == text::byte_len(cs@),
    ensures
        r == text::byte_len(cs@.subrange(lo as int, hi as int)),
{
    let mut r: usize = 0;
    let mut i: usize = lo;
    assert(cs@.subrange(lo as int, lo as int) =~= Seq::<char>::empty());
    while i < hi
        invariant
            lo <= i <= hi <= cs@.len(),
            total == text::byte_len(cs@),
            r == text::byte_len(cs@.subrange(lo as int, i as int)),
        decreases hi - i,
    {
        proof {
            lemma_range_step(cs@, lo as int, i as int);
        }
        r = r + text::char_width(cs[i]);
        i = i + 1;
    }
    r
}

/// One more character, and its bytes, within a text.
proof fn lemma_range_step(cs: Seq<char>, lo: int, i: int)
    requires
        0 <= lo <= i < cs.len(),
    ensures
        text::byte_len(cs.subrange(lo, i + 1)) == text::byte_len(cs.subrange(lo, i))
            + text::byte_len(seq![cs[i]]),
        text::byte_len(cs.subrange(lo, i + 1)) <= text::byte_len(cs),
{
    let part = cs.subrange(lo, i + 1);
    assert(part =~= cs.subrange(lo, i) + seq![cs[i]]);
    text::lemma_byte_len_concat(cs.subrange(lo, i), seq![cs[i]]);
    assert(cs =~= cs.take(lo) + part + cs.skip(i + 1));
    text::lemma_byte_len_concat(cs.take(lo) + part, cs.skip(i + 1));
    text::lemma_byte_len_concat(cs.take(lo), part);
}

/// The last place in `lo..hi` where the line can be broken, if there is one.
fn find_break(cs: &Vec<char>, lo: usize, hi: usize, used: usize, max: usize, total: usize) -> (r:
    Option<usize>)
    requires
        lo <= hi <= cs@.len(),
        total == text::byte_len(cs@),
    ensures
        ({
            let s = cs@.subrange(lo as int, hi as int);
            match r {
                Some(b) => lo < b <= hi && last_break(used as int, s, max as int, s.len() as int)
                    == Some(b - lo),
                None => last_break(used as int, s, max as int, s.len() as int) is None,
            }
        }),
{
    let ghost s = cs@.subrange(lo as int, hi as int);
    let mut best: Option<usize> = None;
    let mut i: usize = lo;
    let mut bytes: usize = 0;
    assert(s.take(0) =~= Seq::<char>::empty());
    while i < hi
        invariant_except_break
            lo <= i <= hi <= cs@.len(),
            s == cs@.subrange(lo as int, hi as int),
            total == text::byte_len(cs@),
            bytes == text::byte_len(s.take(i - lo)),
            match best {
                Some(b) => lo < b <= i && last_break(used as int, s, max as int, i - lo) == Some(
                    b - lo,
                ),
                None => last_break(used as int, s, max as int, i - lo) is None,
            },
        ensures
            match best {
                Some(b) => lo < b <= hi && last_break(used as int, s, max as int, s.len() as int)
                    == Some(b - lo),
                None => last_break(used as int, s, max as int, s.len() as int) is None,
            },
        decreases hi - i,
    {
        proof {
            lemma_range_step(cs@, lo as int, i as int);
            assert(s.take(i - lo) =~= cs@.subrange(lo as int, i as int));
            assert(s.take(i - lo + 1) =~= cs@.subrange(lo as int, i + 1));
        }
        bytes = bytes + text::char_width(cs[i]);
        if used >= max || bytes >= max - used {
            proof {
                lemma_no_break_behind(used as int, s, max as int, i - lo, s.len() as int);
            }
            break;
        }
        if cs[i] == ' ' {
            best = Some(i + 1);
        }
        i = i + 1;
    }
    best
}

/// Where a line is full, no later place to break it is found.
proof fn lemma_no_break_behind(used: int, s: Seq<char>, width: int, k: int, n: int)
    requires
        0 <= k <= n <= s.len(),
        k < s.len() ==> used + text::byte_len(s.take(k + 1)) >= width,
    ensures
        last_break(used, s, width, n) == last_break(used, s, width, k),
    decreases n - k,
{
    if n > k {
        lemma_no_break_behind(used, s, width, k, n - 1);
        assert(s.take(n) =~= s.take(k + 1) + s.subrange(k + 1, n));
        text::lemma_byte_len_concat(s.take(k + 1), s.subrange(k + 1, n));
    }
}

} // verus!
