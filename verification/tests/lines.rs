use genemichaels_comments::line::{LineState, State};
use genemichaels_comments::markdown::{CodeBlockKind, Event, Tag};
use genemichaels_comments::stack::{
    push_emphasis, push_link, push_strikethrough, push_strong, write_image, StackBlock,
    StackBlockArgs, StackBulletList, StackCodeBlock, StackEl, StackInline, StackInlineArgs,
    StackNumberList, StackRes,
};
use genemichaels_comments::text::{
    char_width, chars_of, find_in, len_of, line_ranges, push_decimal, push_range, repeated,
    slice_of, string_of, trim_end_at, trim_range,
};

fn plain(state: &mut State, max_width: usize) -> LineState {
    LineState::new(state, None, "> ".to_string(), max_width, false)
}

#[test]
fn a_shared_line_state_is_the_same() {
    let mut state = State::new();
    let line = LineState::new(&mut state, Some("1".to_string()), "2".to_string(), 9, true);
    let shared = line.share();
    assert_eq!(line, shared);
    let mut out = String::new();
    shared.flush_always(&mut state, &mut out);
    line.flush_always(&mut state, &mut out);
    assert_eq!(out, "1 \\\n2 \\");
}

#[test]
fn an_indented_line_state_takes_the_next_prefix() {
    let mut state = State::new();
    let outer = LineState::new(&mut state, Some("a".to_string()), "b".to_string(), 9, false);
    let inner = outer.indent(&mut state, Some("c".to_string()), "d".to_string(), false);
    let last = inner.indent(&mut state, None, "e".to_string(), true);
    let marked = outer.indent(&mut state, Some("f".to_string()), "g".to_string(), false);
    let bare = outer.indent(&mut state, None, "h".to_string(), false);
    let mut out = String::new();
    last.flush_always(&mut state, &mut out);
    last.flush_always(&mut state, &mut out);
    inner.flush_always(&mut state, &mut out);
    outer.flush_always(&mut state, &mut out);
    marked.flush_always(&mut state, &mut out);
    marked.flush_always(&mut state, &mut out);
    bare.flush_always(&mut state, &mut out);
    assert_eq!(out, "ac \\\nbde \\\nbd\nb\nbf\nbg\nbh");
}

#[test]
fn a_line_state_without_indent_takes_the_next_prefix() {
    let mut state = State::new();
    let outer = LineState::new(&mut state, Some("a".to_string()), "b".to_string(), 9, true);
    let inner = outer.zero_indent(&mut state);
    let mut out = String::new();
    outer.flush_always(&mut state, &mut out);
    inner.flush_always(&mut state, &mut out);
    inner.flush_always(&mut state, &mut out);
    assert_eq!(out, "b \\\na \\\nb \\");
}

#[test]
fn an_empty_buffer_is_not_flushed() {
    let mut state = State::new();
    let line = plain(&mut state, 9);
    let mut out = String::new();
    line.flush(&mut state, &mut out);
    assert_eq!(out, "");
    line.write_newline(&mut state, &mut out);
    assert_eq!(out, "> ");
    line.write_unbreakable(&mut state, &mut out, "a \u{3000}");
    line.flush(&mut state, &mut out);
    assert_eq!(out, "> \n> a");
    assert_eq!(state.line_buffer, "");
    assert!(state.need_nl);
}

#[test]
fn what_stays_on_one_line_goes_on_the_next_if_it_must() {
    let mut state = State::new();
    let line = plain(&mut state, 5);
    let mut out = String::new();
    line.write_unbreakable(&mut state, &mut out, "abc");
    line.write_unbreakable(&mut state, &mut out, "de");
    assert_eq!((out.as_str(), state.line_buffer.as_str()), ("", "abcde"));
    line.write_unbreakable(&mut state, &mut out, "f");
    assert_eq!((out.as_str(), state.line_buffer.as_str()), ("> abcde", "f"));
    line.write_unbreakable(&mut state, &mut out, "longer than that");
    assert_eq!((out.as_str(), state.line_buffer.as_str()), ("> abcde\n> f", "longer than that"));
}

#[test]
fn white_space_ends_a_full_line() {
    let mut state = State::new();
    let line = plain(&mut state, 5);
    let mut out = String::new();
    line.write_unbreakable(&mut state, &mut out, "abc");
    line.write_whitespace(&mut state, &mut out, " ");
    assert_eq!((out.as_str(), state.line_buffer.as_str()), ("", "abc "));
    line.write_whitespace(&mut state, &mut out, " ");
    assert_eq!((out.as_str(), state.line_buffer.as_str()), ("> abc", ""));
}

#[test]
fn text_is_broken_behind_the_buffer() {
    let mut state = State::new();
    let line = plain(&mut state, 8);
    let mut out = String::new();
    line.write_breakable(&mut state, &mut out, "  ab ");
    assert_eq!((out.as_str(), state.line_buffer.as_str()), ("", "ab"));
    line.write_breakable(&mut state, &mut out, " cd ef gh");
    assert_eq!((out.as_str(), state.line_buffer.as_str()), ("> ab cd", "ef gh"));
    line.write_breakable(&mut state, &mut out, "ijklmnopqr");
    assert_eq!(
        (out.as_str(), state.line_buffer.as_str()),
        ("> ab cd\n> ef gh\n> ijklmnopqr", ""),
    );
    line.write_breakable(&mut state, &mut out, "");
    assert_eq!(state.line_buffer, "");
}

#[test]
fn words_are_kept_behind_the_buffer() {
    for width in 6..16 {
        let mut state = State::new();
        let line = LineState::new(&mut state, None, String::new(), width, false);
        let mut out = String::new();
        line.write_unbreakable(&mut state, &mut out, "one ");
        line.write_breakable(&mut state, &mut out, "two four  five six");
        line.flush(&mut state, &mut out);
        let words: Vec<&str> = out.split_whitespace().collect();
        assert_eq!(words, vec!["one", "two", "four", "five", "six"]);
        assert!(out.lines().all(|l| l.len() <= width));
    }
}

#[test]
fn a_backslash_takes_two_columns() {
    let mut state = State::new();
    let line = LineState::new(&mut state, None, String::new(), 5, true);
    let narrow = LineState::new(&mut state, None, String::new(), 1, true);
    let mut out = String::new();
    assert!(line.can_write(&state));
    assert!(!narrow.can_write(&state));
    line.write_unbreakable(&mut state, &mut out, "abc");
    line.write_unbreakable(&mut state, &mut out, "d");
    assert_eq!((out.as_str(), state.line_buffer.as_str()), ("abc \\", "d"));
}

#[test]
fn images_and_spans_are_written() {
    let mut state = State::new();
    let line = plain(&mut state, 80);
    let mut out = String::new();
    write_image(&mut state, &mut out, &line, "u", "");
    write_image(&mut state, &mut out, &line, "v", "w x");
    assert_eq!(state.line_buffer, "![](u)![](v \"w x\")");
    state.line_buffer = String::new();
    let spans = [
        push_emphasis(&mut state, &mut out, line.share(), false),
        push_strong(&mut state, &mut out, line.share(), false),
        push_strikethrough(&mut state, &mut out, line.share(), false),
        push_link(&mut state, &mut out, line.share(), true, "u", "t"),
    ];
    assert_eq!(state.line_buffer, "_**~[");
    for span in spans {
        match span {
            StackRes::Push(mut el) => {
                assert!(matches!(
                    el.handle(&mut state, &mut out, &Event::End),
                    Some(StackRes::Pop),
                ));
            }
            _ => unreachable!(),
        }
    }
    assert_eq!((out.as_str(), state.line_buffer.as_str()), ("> _**~[_**~](u)", ""));
}

#[test]
fn bounds_are_written_around_parts() {
    let mut state = State::new();
    let line = plain(&mut state, 80);
    let mut out = String::new();
    let mut inline = StackInline::new(
        &mut state,
        &mut out,
        StackInlineArgs {
            start_bound: Some("<".to_string()),
            end_bound: Some(">".to_string()),
            line_state: line,
            line_root: true,
        },
    );
    assert!(matches!(inline.handle(&mut state, &mut out, &Event::End), Some(StackRes::Pop)));
    let mut block = StackBlock::new(
        &mut state,
        &mut out,
        StackBlockArgs {
            line,
            start_bound: Some("{".to_string()),
            end_bound: Some("}".to_string()),
        },
    );
    assert!(matches!(block.handle(&mut state, &mut out, &Event::SoftBreak), Some(StackRes::Keep)));
    assert!(matches!(block.handle(&mut state, &mut out, &Event::End), Some(StackRes::Pop)));
    assert_eq!(out, "> <>\n> {}");
}

#[test]
fn a_block_keeps_track_of_what_came() {
    let mut state = State::new();
    let line = plain(&mut state, 80);
    let mut out = String::new();
    let mut block = StackBlock { line, first: true, was_inline: false, end_bound: None };
    assert!(block.block_ev(&mut state, &mut out));
    assert!(!block.first && !block.was_inline);
    assert_eq!(out, "");
    block.inline_ev();
    assert!(!block.first && block.was_inline);
    line.write_unbreakable(&mut state, &mut out, "a");
    assert!(block.block_ev(&mut state, &mut out));
    assert!(!block.was_inline);
    assert_eq!(out, "> a\n> ");
    line.write_unbreakable(&mut state, &mut out, "b");
    assert!(!block.block_ev(&mut state, &mut out));
}

#[test]
fn lists_and_code_blocks_handle_their_events() {
    let mut state = State::new();
    let line = plain(&mut state, 80);
    let mut out = String::new();
    let item = Event::Start(Tag::Item);
    let mut numbers = StackNumberList { count: 9, line };
    assert!(matches!(
        numbers.handle(&mut state, &mut out, &item),
        Some(StackRes::Push(StackEl::Block(_))),
    ));
    assert_eq!(numbers.count, 10);
    assert!(matches!(numbers.handle(&mut state, &mut out, &Event::End), Some(StackRes::Pop)));
    let mut bullets = StackBulletList { line };
    assert!(matches!(
        bullets.handle(&mut state, &mut out, &item),
        Some(StackRes::Push(StackEl::Block(_))),
    ));
    assert!(bullets.handle(&mut state, &mut out, &Event::Rule).is_none());
    let mut code = StackCodeBlock { line };
    let lines = Event::Text("a\r\nb".to_string());
    assert!(matches!(code.handle(&mut state, &mut out, &lines), Some(StackRes::Keep)));
    assert!(matches!(code.handle(&mut state, &mut out, &Event::End), Some(StackRes::Pop)));
    assert_eq!(out, "> a\n> b\n> ```");
}

#[test]
fn nothing_is_written_where_there_is_no_room() {
    let mut state = State::new();
    let line = LineState::new(&mut state, None, String::new(), 1, true);
    let mut out = String::new();
    let mut code = StackCodeBlock { line };
    assert!(matches!(
        code.handle(&mut state, &mut out, &Event::Text(String::new())),
        Some(StackRes::Keep),
    ));
    assert!(code.handle(&mut state, &mut out, &Event::Text("a".to_string())).is_none());
    assert!(code.handle(&mut state, &mut out, &Event::End).is_none());
    let mut block = StackBlock { line, first: true, was_inline: false, end_bound: None };
    assert!(block.handle(&mut state, &mut out, &Event::Code("a".to_string())).is_none());
    assert!(block.handle(&mut state, &mut out, &Event::Start(Tag::Emphasis)).is_none());
    assert_eq!(out, "");
}

#[test]
fn a_refused_event_changes_nothing() {
    let refused = vec![
        Event::Start(Tag::Item),
        Event::Start(Tag::Table),
        Event::Start(Tag::TableHead),
        Event::Start(Tag::TableRow),
        Event::Start(Tag::TableCell),
        Event::Start(Tag::FootnoteDefinition),
        Event::Html,
        Event::FootnoteReference,
        Event::HardBreak,
        Event::Rule,
        Event::TaskListMarker,
    ];
    let mut state = State::new();
    let line = plain(&mut state, 80);
    let mut out = "before".to_string();
    line.write_unbreakable(&mut state, &mut out, "pending");
    for event in &refused {
        let mut block = StackBlock { line, first: false, was_inline: true, end_bound: None };
        assert!(block.handle(&mut state, &mut out, event).is_none());
        assert!(!block.first && block.was_inline);
        assert_eq!((out.as_str(), state.line_buffer.as_str()), ("before", "pending"));
        assert!(!state.need_nl);
        assert_eq!(state.lines.len(), 1);
    }
    let mut numbers = StackNumberList { count: 4, line };
    assert!(numbers.handle(&mut state, &mut out, &Event::Rule).is_none());
    assert_eq!(numbers.count, 4);
}

#[test]
fn a_code_block_without_room_changes_nothing() {
    let mut state = State::new();
    let line = LineState::new(&mut state, None, String::new(), 1, true);
    let mut out = String::new();
    state.line_buffer = "pending".to_string();
    let code = Event::Start(Tag::CodeBlock(CodeBlockKind::Indented));
    let mut block = StackBlock { line, first: false, was_inline: true, end_bound: None };
    assert!(block.handle(&mut state, &mut out, &code).is_none());
    let mut bound =
        StackBlock { line, first: false, was_inline: true, end_bound: Some("x".to_string()) };
    assert!(bound.handle(&mut state, &mut out, &Event::End).is_none());
    assert!(block.was_inline && bound.was_inline);
    assert_eq!((out.as_str(), state.line_buffer.as_str()), ("", "pending"));
}

#[test]
fn white_space_is_that_of_unicode() {
    let spaces = "\t\n\u{b}\u{c}\r \u{85}\u{a0}\u{1680}\u{2000}\u{200a}\u{2028}\u{2029}\u{202f}\u{205f}\u{3000}";
    let cs = chars_of(spaces);
    assert_eq!(trim_end_at(&cs, 0, cs.len()), 0);
    for c in ['\u{8}', '\u{e}', '!', 'a', '\u{200b}', '\u{180e}', '\u{feff}'] {
        assert_eq!(trim_range(&vec![' ', c, ' '], 0, 3), (1, 2));
    }
}

#[test]
fn widths_are_counted_in_bytes() {
    assert_eq!(char_width('a'), 1);
    assert_eq!(char_width('\u{e9}'), 2);
    assert_eq!(char_width('\u{20ac}'), 3);
    assert_eq!(char_width('\u{1f600}'), 4);
    assert_eq!(len_of("a\u{e9}\u{20ac}\u{1f600}"), 10);
}

#[test]
fn numbers_are_written_in_decimal() {
    for (n, s) in [
        (0, "0"),
        (7, "7"),
        (10, "10"),
        (1205, "1205"),
        (u64::MAX, "18446744073709551615"),
    ] {
        let mut out = "#".to_string();
        push_decimal(&mut out, n);
        assert_eq!(out, format!("#{}", s));
    }
    assert_eq!(repeated('x', 0), "");
    assert_eq!(repeated('x', 3), "xxx");
}

#[test]
fn ranges_are_trimmed_and_searched() {
    let cs = chars_of(" \t\u{2003}ab c\u{85}\n");
    assert_eq!(trim_range(&cs, 0, cs.len()), (3, 7));
    assert_eq!(trim_end_at(&cs, 0, cs.len()), 7);
    assert_eq!(trim_range(&cs, 0, 3), (0, 0));
    assert_eq!(find_in(&cs, 0, cs.len(), 'c'), 6);
    assert_eq!(find_in(&cs, 0, 5, 'c'), 5);
    assert_eq!(string_of(&cs, 3, 5), "ab");
    let mut out = "-".to_string();
    push_range(&mut out, &cs, 4, 7);
    assert_eq!(out, "-b c");
}

#[test]
fn lines_end_in_line_feeds() {
    let cs = chars_of("a\r\n\nb\rc\r");
    assert_eq!(line_ranges(&cs, 0, cs.len()), vec![(0, 1), (3, 3), (4, 8)]);
    assert_eq!(line_ranges(&cs, 0, 0), vec![]);
    assert_eq!(line_ranges(&cs, 0, 4), vec![(0, 1), (3, 3)]);
}

#[test]
fn slices_are_on_character_boundaries() {
    let s = "a\u{e9}b";
    assert_eq!(slice_of(s, 0, 4), Some(s));
    assert_eq!(slice_of(s, 1, 3), Some("\u{e9}"));
    assert_eq!(slice_of(s, 4, 4), Some(""));
    assert_eq!(slice_of(s, 1, 2), None);
    assert_eq!(slice_of(s, 2, 3), None);
    assert_eq!(slice_of(s, 3, 1), None);
    assert_eq!(slice_of(s, 3, 5), None);
}
