use genemichaels_comments::markdown::{parse, CodeBlockKind, Event, Tag};
use genemichaels_comments::render::{format_events, format_md, Unwritable};

fn formatted(max_width: usize, source: &str) -> String {
    let mut out = String::new();
    assert_eq!(format_md(&mut out, max_width, "// ", source), Ok(()));
    out
}

fn refused(max_width: usize, source: &str) {
    let mut out = "kept".to_string();
    assert_eq!(format_md(&mut out, max_width, "// ", source), Err(Unwritable));
    assert_eq!(out, "kept");
}

fn text(s: &str) -> Event {
    Event::Text(s.to_string())
}

fn written(max_width: usize, events: Vec<Event>) -> Option<String> {
    let mut out = String::new();
    match format_events(&mut out, max_width, "", &events) {
        Ok(()) => Some(out),
        Err(Unwritable) => {
            assert_eq!(out, "");
            None
        }
    }
}

#[test]
fn documents_are_read_as_events() {
    assert_eq!(parse(""), vec![]);
    assert_eq!(
        parse("## T\n\n1. a\n\n```rs\nx\n```\n"),
        vec![
            Event::Start(Tag::Heading(2)),
            text("T"),
            Event::End,
            Event::Start(Tag::List(Some(1))),
            Event::Start(Tag::Item),
            text("a"),
            Event::End,
            Event::End,
            Event::Start(Tag::CodeBlock(CodeBlockKind::Fenced("rs".to_string()))),
            text("x\n"),
            Event::End,
        ],
    );
    assert_eq!(
        parse("> *a* **b** `c`\n\n    d\n"),
        vec![
            Event::Start(Tag::BlockQuote),
            Event::Start(Tag::Paragraph),
            Event::Start(Tag::Emphasis),
            text("a"),
            Event::End,
            text(" "),
            Event::Start(Tag::Strong),
            text("b"),
            Event::End,
            text(" "),
            Event::Code("c".to_string()),
            Event::End,
            Event::End,
            Event::Start(Tag::CodeBlock(CodeBlockKind::Indented)),
            text("d\n"),
            Event::End,
        ],
    );
    assert_eq!(
        parse("[t](u \"v\")\n![w](x)  \ny\nz\n\n* i\n\n---\n"),
        vec![
            Event::Start(Tag::Paragraph),
            Event::Start(Tag::Link { url: "u".to_string(), title: "v".to_string() }),
            text("t"),
            Event::End,
            Event::SoftBreak,
            Event::Start(Tag::Image { url: "x".to_string(), title: String::new() }),
            text("w"),
            Event::End,
            Event::HardBreak,
            text("y"),
            Event::SoftBreak,
            text("z"),
            Event::End,
            Event::Start(Tag::List(None)),
            Event::Start(Tag::Item),
            text("i"),
            Event::End,
            Event::End,
            Event::Rule,
        ],
    );
    assert_eq!(parse("<div>\n"), vec![Event::Html]);
}

#[test]
fn a_paragraph_is_written_behind_the_prefix() {
    assert_eq!(formatted(80, "hello world"), "// hello world");
    assert_eq!(formatted(80, ""), "");
    let mut out = "before\n".to_string();
    assert_eq!(format_md(&mut out, 80, "/// ", "hello"), Ok(()));
    assert_eq!(out, "before\n/// hello");
}

#[test]
fn a_paragraph_is_broken_at_spaces() {
    assert_eq!(formatted(8, "aaa bbb ccc"), "// aaa\n// bbb ccc");
    assert_eq!(formatted(11, "aaa bbb ccc"), "// aaa bbb ccc");
    assert_eq!(formatted(10, "aaa bbb ccc"), "// aaa bbb\n// ccc");
    assert_eq!(formatted(3, "abcdef gh"), "// abcdef gh");
    assert_eq!(formatted(4, "ab cdefgh"), "// ab\n// cdefgh");
    assert_eq!(formatted(6, "\u{e9}\u{e9} \u{e9}\u{e9}"), "// \u{e9}\u{e9}\n// \u{e9}\u{e9}");
}

#[test]
fn lines_of_a_paragraph_are_joined() {
    assert_eq!(formatted(80, "a\nb"), "// a b");
    assert_eq!(formatted(80, "a  \nb"), "// a b");
    assert_eq!(formatted(4, "aaa\nbbb"), "// aaa\n// bbb");
}

#[test]
fn paragraphs_have_a_line_between_them() {
    assert_eq!(formatted(80, "a\n\nb\n\nc"), "// a\n// \n// b\n// \n// c");
    assert_eq!(formatted(3, "a b c\n\nd"), "// a\n// b c\n// \n// d");
}

#[test]
fn a_heading_ends_its_lines_in_a_backslash() {
    assert_eq!(formatted(80, "# Title"), "// #Title \\");
    assert_eq!(formatted(80, "### Title"), "// ###Title \\");
    assert_eq!(formatted(7, "# aaa bbb"), "// #aaa \\\n//   bbb \\");
    assert_eq!(formatted(1, "#"), "");
    refused(1, "# Title");
}

#[test]
fn lists_are_marked() {
    assert_eq!(formatted(80, "* a\n* b"), "// * a\n// * b");
    assert_eq!(formatted(80, "3. a\n4. b"), "// 3. a\n// 4. b");
    assert_eq!(formatted(4, "* aa bb\n"), "// * aa\n//    bb");
    assert_eq!(formatted(80, "* a\n  * b"), "// * a\n//    \n//    * b");
    assert_eq!(formatted(80, "* a\n\n* b"), "// * a\n// * b");
}

#[test]
fn a_quote_is_marked() {
    assert_eq!(formatted(80, "> q"), "// >q");
    assert_eq!(formatted(80, "> q\n>\n> r"), "// >q\n// >\n// >r");
}

#[test]
fn code_is_written_line_by_line() {
    assert_eq!(
        formatted(12, "```rust\nlet x = 1;\n\ny\n```"),
        "// ```rust\n// let x = 1;\n// y\n// ```",
    );
    assert_eq!(formatted(80, "```rust\nlet x = 1;\n```"), "// ```rustlet x = 1;\n// ```");
    assert_eq!(formatted(4, "    abc def\n"), "// ```\n// abc def\n// ```");
}

#[test]
fn spans_have_their_bounds() {
    assert_eq!(formatted(80, "x `y`"), "// x`y`");
    assert_eq!(formatted(80, "a _b_ **c**"), "// a_b_ **c**");
    assert_eq!(formatted(80, "[t](u)"), "// [t](u)");
    assert_eq!(formatted(80, "[t](u \"v\") w"), "// [t](u) w");
    assert_eq!(formatted(80, "* _b_"), "// * _b_");
    assert_eq!(
        written(
            80,
            vec![
                Event::Start(Tag::Paragraph),
                Event::Start(Tag::Strikethrough),
                text("s"),
                Event::End,
                Event::End,
            ],
        ),
        Some("~s~".to_string()),
    );
}

#[test]
fn a_span_that_does_not_fit_goes_on_a_line_of_its_own() {
    assert_eq!(formatted(5, "aa `bbb`"), "// aa\n// `bbb`");
    assert_eq!(formatted(3, "`bbbbb`"), "// `bbbbb`");
}

#[test]
fn an_image_is_written_with_its_title() {
    assert_eq!(formatted(80, "![alt](u)"), "// ![](u)alt");
    assert_eq!(formatted(80, "![alt](u \"ti\")"), "// ![](u \"ti\")alt");
    refused(80, "![alt](u)\n\nnext");
}

#[test]
fn a_link_in_a_tight_item_is_left_open() {
    assert_eq!(formatted(80, "* [t](u)"), "// * [t");
}

#[test]
fn what_has_no_form_is_refused() {
    refused(80, "<div>\n");
    refused(80, "a <b>c</b>");
    refused(80, "---");
    refused(80, "text\n\n---");
    let inner = vec![
        Tag::Paragraph,
        Tag::Heading(1),
        Tag::BlockQuote,
        Tag::CodeBlock(CodeBlockKind::Indented),
        Tag::List(None),
        Tag::Item,
        Tag::FootnoteDefinition,
        Tag::Table,
        Tag::TableHead,
        Tag::TableRow,
        Tag::TableCell,
    ];
    for tag in inner {
        assert_eq!(written(80, vec![Event::Start(Tag::Paragraph), Event::Start(tag)]), None);
    }
    let outer = vec![
        Tag::Item,
        Tag::FootnoteDefinition,
        Tag::Table,
        Tag::TableHead,
        Tag::TableRow,
        Tag::TableCell,
    ];
    for tag in outer {
        assert_eq!(written(80, vec![Event::Start(tag)]), None);
    }
    for event in [Event::FootnoteReference, Event::TaskListMarker, Event::HardBreak] {
        assert_eq!(written(80, vec![event]), None);
    }
    for event in [Event::FootnoteReference, Event::TaskListMarker, Event::Rule] {
        assert_eq!(written(80, vec![Event::Start(Tag::Paragraph), event]), None);
    }
    for tag in [Tag::List(None), Tag::List(Some(1))] {
        assert_eq!(written(80, vec![Event::Start(tag), text("a")]), None);
    }
    let code = Tag::CodeBlock(CodeBlockKind::Indented);
    assert_eq!(written(80, vec![Event::Start(code), Event::SoftBreak]), None);
}

#[test]
fn an_event_with_no_open_part_is_refused() {
    assert_eq!(written(80, vec![Event::End]), Some(String::new()));
    assert_eq!(written(80, vec![Event::End, Event::End]), None);
}

#[test]
fn the_last_number_of_a_list_cannot_be_passed() {
    let items = |first: u64| {
        vec![
            Event::Start(Tag::List(Some(first))),
            Event::Start(Tag::Item),
            text("a"),
            Event::End,
        ]
    };
    assert_eq!(
        written(80, items(u64::MAX - 1)),
        Some("18446744073709551614. a".to_string()),
    );
    assert_eq!(written(80, items(u64::MAX)), None);
}

#[test]
fn every_line_starts_with_the_prefix() {
    let source = "# H\n\naaa bbb ccc\n\n> q q q q q q\n\n* a\n* b b b b\n\n1. c\n\n```x\ny\n```\n";
    let out = formatted(6, source);
    assert!(out.lines().count() > 10);
    for line in out.lines() {
        assert!(line.starts_with("// "));
    }
}

#[test]
fn the_text_is_kept_in_order() {
    let source = "# Head\n\nlorem ipsum *dolor* sit `amet`\n\n* one two\n* three\n\n```x\nfn y\n```\n";
    let all: String = formatted(9, source);
    let mut out = all.chars();
    for c in "HeadloremipsumdolorsitametonetwothreefnY".to_lowercase().chars() {
        assert!(out.any(|o| o.to_lowercase().next() == Some(c)));
    }
}

#[test]
fn what_follows_only_adds() {
    let source = "aaa bbb\n\n* c\n* d\n\n## e\n";
    let events = parse(source);
    let whole = formatted(7, source);
    for n in 0..events.len() {
        let mut out = String::new();
        let some: Vec<Event> = parse(source).into_iter().take(n).collect();
        assert_eq!(format_events(&mut out, 7, "// ", &some), Ok(()));
        assert!(whole.starts_with(&out));
    }
}

#[test]
fn another_prefix_gives_the_same_lines_behind_it() {
    let source = "# Head line\n\nlorem ipsum dolor sit\n\n* one two three\n* four\n\n> a b c d\n\n```x\nfn y\n```\n";
    let mut bare = String::new();
    assert_eq!(format_md(&mut bare, 9, "", source), Ok(()));
    for prefix in ["// ", "a rather long prefix ", "\u{e9}"] {
        let mut out = String::new();
        assert_eq!(format_md(&mut out, 9, prefix, source), Ok(()));
        let moved: Vec<String> = bare.split('\n').map(|l| format!("{}{}", prefix, l)).collect();
        assert_eq!(out.split('\n').collect::<Vec<&str>>(), moved);
    }
    let mut out = String::new();
    assert_eq!(format_md(&mut out, 9, "// ", "<div>\n"), Err(Unwritable));
    assert_eq!(format_md(&mut out, 9, "", "<div>\n"), Err(Unwritable));
}

#[test]
fn words_are_kept_and_lines_are_not_over() {
    let source = "the quick brown fox jumps over  the lazy dog";
    for width in 7..20 {
        let out = formatted(width, source);
        let words: Vec<&str> = out.split_whitespace().filter(|w| *w != "//").collect();
        assert_eq!(words, source.split_whitespace().collect::<Vec<&str>>());
        for line in out.lines() {
            assert!(line.len() <= width + 3);
        }
    }
}

#[test]
fn soft_breaks_keep_the_words_and_the_width() {
    assert_eq!(formatted(7, "aaa bb\ncc ddd\ne"), "// aaa bb\n// cc ddd\n// e");
    assert_eq!(formatted(8, "aaa bb\ncc ddd\ne"), "// aaa bb\n// cc ddd e");
    assert_eq!(formatted(11, "aaa bb\ncc ddd\ne"), "// aaa bb cc\n// ddd e");
    assert_eq!(formatted(10, "aaa\nbb\n\ncc\ndd"), "// aaa bb\n// \n// cc dd");
    let source = "the quick\nbrown fox jumps\nover the\nlazy dog";
    for width in 7..30 {
        let out = formatted(width, source);
        let words: Vec<&str> = out.split_whitespace().filter(|w| *w != "//").collect();
        assert_eq!(words, source.split_whitespace().collect::<Vec<&str>>());
        for line in out.lines() {
            assert!(line.len() <= width + 3);
        }
    }
}
