//! Markdown written anew, on lines of a given width behind a given prefix.
use vstd::prelude::*;
use vstd::string::*;
use crate::line::{self, LineState, LineView, State, World};
use crate::markdown::{self, Event, EventView};
use crate::page;
use crate::stack::{self, ElView, ResView, StackBlock, StackBlockArgs, StackEl, StackRes};

verus! {

/// The document cannot be written: it holds something that has no form here, or
/// the width leaves no room.
#[derive(Clone, Copy, PartialEq, Eq, Debug, Structural)]
pub struct Unwritable;

/// A document that is being written: what is written, and the parts that are open,
/// innermost last.
pub struct Machine {
    pub world: World,
    pub stack: Seq<ElView>,
}

/// Nothing written yet, in a document whose lines come behind `prefix`.
pub open spec fn start(prefix: Seq<char>, max_width: nat) -> Machine {
    Machine {
        world: World {
            lines: seq![
                LineView { first_prefix: None, prefix, explicit_wrap: false, max_width },
            ],
            ..line::blank()
        },
        stack: seq![
            ElView::Block(
                stack::BlockView { line: 0, first: true, was_inline: false, end_bound: None },
            ),
        ],
    }
}

/// One event, which the innermost part handles. There is no result where no part
/// is open, or that part cannot handle it.
#[verifier::opaque]
pub open spec fn advance(m: Machine, e: EventView) -> Option<Machine> {
    if m.stack.len() == 0 {
        None
    } else {
        match stack::step(m.stack.last(), m.world, e) {
            None => None,
            Some((top, world, res)) => Some(
                Machine {
                    world,
                    stack: match res {
                        ResView::Push(el) => m.stack.drop_last().push(top).push(el),
                        ResView::Keep => m.stack.drop_last().push(top),
                        ResView::Pop => m.stack.drop_last(),
                    },
                },
            ),
        }
    }
}

/// Events one after the other.
pub open spec fn run(m: Machine, events: Seq<EventView>) -> Option<Machine>
    decreases events.len(),
{
    if events.len() == 0 {
        Some(m)
    } else {
        match run(m, events.drop_last()) {
            None => None,
            Some(before) => advance(before, events.last()),
        }
    }
}

/// What is written for a document, where it can be written.
pub open spec fn rendered(prefix: Seq<char>, max_width: nat, events: Seq<EventView>) -> Option<
    Seq<char>,
> {
    match run(start(prefix, max_width), events) {
        None => None,
        Some(m) => Some(m.world.out),
    }
}

/// The models of the parts that are open.
pub open spec fn views(els: Seq<StackEl>) -> Seq<ElView> {
    els.map_values(|el: StackEl| el@)
}

/// Every part that is open has a line state.
pub open spec fn is_sound(m: Machine) -> bool {
    forall|i: int| 0 <= i < m.stack.len() ==> stack::is_valid(#[trigger] m.stack[i], m.world)
}

pub proof fn lemma_advance_sound(m: Machine, e: EventView)
    requires
        is_sound(m),
    ensures
        advance(m, e) matches Some(next) ==> is_sound(next) && page::follows(next.world, m.world),
{
    reveal(advance);
    if m.stack.len() > 0 {
        page::lemma_step_follows(m.stack.last(), m.world, e);
        if let Some((top, world, res)) = stack::step(m.stack.last(), m.world, e) {
            page::lemma_follows_lines(world, m.world);
        }
    }
}

/// Handles one event; false where it cannot be handled, and nothing has changed.
fn handle_event(state: &mut State, els: &mut Vec<StackEl>, out: &mut String, e: &Event) -> (r: bool)
    requires
        is_sound(
            (Machine { world: line::world(*old(state), old(out)@), stack: views(old(els)@) }),
        ),
    ensures
        ({
            let m = Machine { world: line::world(*old(state), old(out)@), stack: views(old(els)@) };
            match advance(m, e@) {
                None => !r && m.world == line::world(*final(state), final(out)@) && m.stack == views(
                    final(els)@,
                ),
                Some(next) => r && next.world == line::world(*final(state), final(out)@)
                    && next.stack == views(final(els)@),
            }
        }),
{
    reveal(advance);
    let ghost before = els@;
    let mut top: StackEl = match els.pop() {
        None => return false,
        Some(top) => top,
    };
    assert(views(before).last() == top@);
    assert(views(before).drop_last() =~= views(els@));
    let ghost rest = els@;
    match top.handle(state, out, e) {
        None => {
            els.push(top);
            assert(views(els@) =~= views(before));
            false
        },
        Some(StackRes::Push(el)) => {
            els.push(top);
            els.push(el);
            assert(views(els@) =~= views(rest).push(top@).push(el@));
            true
        },
        Some(StackRes::Keep) => {
            els.push(top);
            assert(views(els@) =~= views(rest).push(top@));
            true
        },
        Some(StackRes::Pop) => true,
    }
}

/// Writes a document that is given by its events. Where it cannot be written, `out`
/// stays as it is.
pub fn format_events(
    out: &mut String,
    max_width: usize,
    prefix: &str,
    events: &Vec<Event>,
) -> (r: Result<(), Unwritable>)
    ensures
        match rendered(prefix@, max_width as nat, markdown::views(events@)) {
            Some(text) => r is Ok && final(out)@ == old(out)@ + text,
            None => r is Err && final(out)@ == old(out)@,
        },
{
    let ghost all = markdown::views(events@);
    let ghost m0 = start(prefix@, max_width as nat);
    let mut state: State = State::new();
    let mut text: String = String::new();
    let line: LineState = LineState::new(&mut state, None, prefix.to_owned(), max_width, false);
    let root: StackEl = StackBlock::new(
        &mut state,
        &mut text,
        StackBlockArgs { line, start_bound: None, end_bound: None },
    );
    let mut els: Vec<StackEl> = Vec::new();
    els.push(root);
    proof {
        assert(line::world(state, text@) =~= m0.world);
        assert(views(els@) =~= m0.stack);
    }
    let total: usize = events.len();
    let mut i: usize = 0;
    while i < total
        invariant
            i <= total,
            total == events@.len(),
            all == markdown::views(events@),
            is_sound((Machine { world: line::world(state, text@), stack: views(els@) })),
            run(m0, all.take(i as int)) == Some(
                (Machine { world: line::world(state, text@), stack: views(els@) }),
            ),
            rendered(prefix@, max_width as nat, all) == (match run(m0, all) {
                None => None,
                Some(m) => Some(m.world.out),
            }),
            out@ == old(out)@,
        decreases total - i,
    {
        let ghost m = Machine { world: line::world(state, text@), stack: views(els@) };
        proof {
            assert(all.take(i + 1).drop_last() =~= all.take(i as int));
            lemma_advance_sound(m, all[i as int]);
        }
        if !handle_event(&mut state, &mut els, &mut text, &events[i]) {
            proof {
                lemma_run_split(m0, all, i + 1);
            }
            return Err(Unwritable);
        }
        i = i + 1;
    }
    assert(all.take(total as int) =~= all);
    out.append(text.as_str());
    Ok(())
}

/// Writes Markdown anew: `source` on lines of `max_width`, each behind `prefix`.
/// Where it cannot be written, `out` stays as it is.
pub fn format_md(out: &mut String, max_width: usize, prefix: &str, source: &str) -> (r: Result<
    (),
    Unwritable,
>)
    ensures
        match rendered(prefix@, max_width as nat, markdown::document(source@)) {
            Some(text) => r is Ok && final(out)@ == old(out)@ + text,
            None => r is Err && final(out)@ == old(out)@,
        },
{
    let events: Vec<Event> = markdown::parse(source);
    format_events(out, max_width, prefix, &events)
}

pub proof fn lemma_run_sound(m: Machine, events: Seq<EventView>)
    requires
        is_sound(m),
    ensures
        run(m, events) matches Some(next) ==> is_sound(next) && page::follows(next.world, m.world),
    decreases events.len(),
{
    if events.len() == 0 {
        page::lemma_buffer_follows(m.world, m.world.buffer);
    } else {
        lemma_run_sound(m, events.drop_last());
        if let Some(before) = run(m, events.drop_last()) {
            lemma_advance_sound(before, events.last());
            if let Some(next) = advance(before, events.last()) {
                page::lemma_follows_twice(next.world, before.world, m.world);
            }
        }
    }
}

/// Events in two goes are the same as all at once.
pub proof fn lemma_run_split(m: Machine, events: Seq<EventView>, n: int)
    requires
        0 <= n <= events.len(),
    ensures
        run(m, events) == (match run(m, events.take(n)) {
            None => None,
            Some(half) => run(half, events.skip(n)),
        }),
    decreases events.len() - n,
{
    if n < events.len() {
        lemma_run_split(m, events.drop_last(), n);
        assert(events.drop_last().take(n) =~= events.take(n));
        assert(events.drop_last().skip(n) =~= events.skip(n).drop_last());
    } else {
        assert(events.take(n) =~= events);
    }
}

/// Every line of what is written starts with the prefix.
pub proof fn law_behind_prefix(prefix: Seq<char>, max_width: nat, events: Seq<EventView>)
    ensures
        rendered(prefix, max_width, events) matches Some(text) ==> page::is_page(prefix, text),
{
    let m = start(prefix, max_width);
    lemma_run_sound(m, events);
    if let Some(end) = run(m, events) {
        assert(prefix =~= prefix.subrange(0, prefix.len() as int));
        assert(page::leads_behind(prefix, m.world.lines[0]));
        assert(page::is_behind(prefix, m.world));
        page::lemma_follows_out(end.world, m.world);
        page::lemma_behind_page(prefix, end.world);
    }
}

/// What is written of a document is only added to by what follows in it: nothing
/// written is taken back, and what cannot be written as far as it goes cannot be
/// written at all.
pub proof fn law_only_adds(
    prefix: Seq<char>,
    max_width: nat,
    events: Seq<EventView>,
    more: Seq<EventView>,
)
    ensures
        match rendered(prefix, max_width, events + more) {
            Some(all) => rendered(prefix, max_width, events) matches Some(text)
                && text.is_prefix_of(all),
            None => true,
        },
        rendered(prefix, max_width, events) is None ==> rendered(prefix, max_width, events + more)
            is None,
{
    let m = start(prefix, max_width);
    let n = events.len() as int;
    lemma_run_split(m, events + more, n);
    assert((events + more).take(n) =~= events);
    lemma_run_sound(m, events);
    if let Some(half) = run(m, events) {
        lemma_run_sound(half, (events + more).skip(n));
        if let Some(end) = run(half, (events + more).skip(n)) {
            page::lemma_follows_out(end.world, half.world);
        }
    }
}

} // verus!
