use genemichaels_comments::comment::{Comment, CommentMode};
use genemichaels_comments::comment_map::CommentMap;
use genemichaels_comments::extract::{
    extract_comments, line_lookup, mark_comments, ExtractError, Walker,
};
use genemichaels_comments::location::{Extent, HashLineColumn, LineColumn};
use genemichaels_comments::tokens::{Delimiter, Spacing, Token, TokenKind};
use proc_macro2::TokenStream;
use std::collections::hash_map::DefaultHasher;
use std::hash::{Hash, Hasher};
use std::str::FromStr;

fn at(line: usize, column: usize) -> HashLineColumn {
    HashLineColumn(LineColumn { line, column })
}

fn extent(line: usize, start: usize, end: usize) -> Extent {
    Extent { start: LineColumn { line, column: start }, end: LineColumn { line, column: end } }
}

fn leaf(kind: TokenKind, place: Extent) -> Token {
    Token { kind, open: place, close: place, size: 0, text: String::new() }
}

fn comment(mode: CommentMode, lines: &str) -> Comment {
    Comment { mode, lines: lines.to_string() }
}

fn extracted(source: &str) -> (CommentMap, String) {
    match extract_comments(source) {
        Ok((comments, stream)) => (comments, stream.to_string()),
        Err(e) => panic!("{:?}", e),
    }
}

fn tokens_of(source: &str) -> String {
    TokenStream::from_str(source).unwrap().to_string()
}

#[test]
fn a_comment_is_found_before_the_next_token() {
    let (comments, stream) = extracted("// hello\nfn main() {}\n");
    assert_eq!(
        comments.entries,
        vec![(at(2, 0), vec![comment(CommentMode::Normal, " hello")])],
    );
    assert_eq!(stream, tokens_of("fn main() {}"));
}

#[test]
fn a_comment_is_found_before_a_closing_delimiter() {
    let (comments, stream) = extracted("fn f() {\n    // in\n    // side\n}\n");
    assert_eq!(
        comments.entries,
        vec![(at(4, 0), vec![comment(CommentMode::Normal, " in\n side")])],
    );
    assert_eq!(stream, tokens_of("fn f() {}"));
}

#[test]
fn comments_are_found_within_and_between_groups() {
    let source = "mod m { // one\n    fn f(/* two */ a: u8) -> u8 { a } // three\n}\n";
    let (comments, stream) = extracted(source);
    assert_eq!(
        comments.entries,
        vec![
            (at(2, 4), vec![comment(CommentMode::Normal, " one")]),
            (at(2, 19), vec![comment(CommentMode::Normal, "two")]),
            (at(3, 0), vec![comment(CommentMode::Normal, " three")]),
        ],
    );
    assert_eq!(stream, tokens_of("mod m { fn f(a: u8) -> u8 { a } }"));
}

#[test]
fn a_doc_comment_is_a_comment_and_no_token() {
    let (comments, stream) = extracted("/// Doc\nstruct A;\n");
    assert_eq!(
        comments.entries,
        vec![(at(2, 0), vec![comment(CommentMode::DocOuter, " Doc")])],
    );
    assert_eq!(stream, tokens_of("struct A;"));
    let (comments, stream) = extracted("//! Inner\n//! more\nfn f() {}\n");
    assert_eq!(
        comments.entries,
        vec![(at(3, 0), vec![comment(CommentMode::DocInner, " Inner\n more")])],
    );
    assert_eq!(stream, tokens_of("fn f() {}"));
    let (comments, stream) = extracted("/** D */ fn f() {}\n");
    assert_eq!(
        comments.entries,
        vec![(at(1, 9), vec![comment(CommentMode::Normal, "D")])],
    );
    assert_eq!(stream, tokens_of("fn f() {}"));
}

#[test]
fn a_doc_comment_within_a_group_is_left_out() {
    let (comments, stream) = extracted("struct A {\n    /// field\n    a: u8,\n}\n");
    assert_eq!(
        comments.entries,
        vec![(at(3, 4), vec![comment(CommentMode::DocOuter, " field")])],
    );
    assert_eq!(stream, tokens_of("struct A { a: u8, }"));
}

#[test]
fn an_attribute_stays() {
    let (comments, stream) = extracted("#[derive(Debug)]\nstruct A;\n");
    assert!(comments.entries.is_empty());
    assert_eq!(stream, tokens_of("#[derive(Debug)] struct A;"));
}

#[test]
fn the_gap_before_punctuation_is_passed_over() {
    let (comments, stream) = extracted("a // x\n+ b\n");
    assert!(comments.entries.is_empty());
    assert_eq!(stream, tokens_of("a + b"));
}

#[test]
fn comments_behind_the_last_token_are_not_read() {
    let (comments, _) = extracted("a\n// end\n");
    assert!(comments.entries.is_empty());
}

#[test]
fn an_empty_text_has_nothing() {
    let (comments, stream) = extracted("");
    assert!(comments.entries.is_empty());
    assert_eq!(stream, "");
}

#[test]
fn all_kinds_of_groups_are_kept() {
    let source = "m! { a [1, 'c'] (\"s\") }\n";
    let (comments, stream) = extracted(source);
    assert!(comments.entries.is_empty());
    assert_eq!(stream, tokens_of(source));
}

#[test]
fn a_text_without_slashes_keeps_its_tokens() {
    let source = "fn f(a: u8) -> Vec<u8> { vec![a + 1, -2] }\n";
    let (comments, stream) = extracted(source);
    assert!(comments.entries.is_empty());
    assert_eq!(stream, tokens_of(source));
}

#[test]
fn a_text_that_is_no_source_is_refused() {
    match extract_comments("x\nfn f( {\n") {
        Err(ExtractError::Lex(_, place)) => {
            assert_eq!(place, LineColumn { line: 2, column: 6 });
        }
        _ => unreachable!(),
    }
    match extract_comments("a )\n") {
        Err(ExtractError::Lex(_, place)) => {
            assert_eq!(place, LineColumn { line: 1, column: 2 });
        }
        _ => unreachable!(),
    }
    assert!(matches!(extract_comments("/* open\n"), Err(ExtractError::Lex(_, _))));
}

#[test]
fn a_token_off_its_bytes_is_refused() {
    assert!(matches!(extract_comments("\u{e9} b\n"), Err(ExtractError::Misplaced)));
}

#[test]
fn comments_do_not_show_in_the_tokens() {
    let source = "/// Doc\nfn f(/* a */ b: u8) {\n    // in\n    b += 1; // end\n}\n//! last\n";
    let blank = "       \nfn f(        b: u8) {\n         \n    b += 1;       \n}\n        \n";
    assert_eq!(source.len(), blank.len());
    let (comments, stream) = extracted(source);
    let (none, same) = extracted(blank);
    assert_eq!(comments.entries.len(), 4);
    assert!(none.entries.is_empty());
    assert_eq!(stream, same);
}

#[test]
fn spacing_and_text_are_kept() {
    let source = "r#fn => 0x1F_u8 .. \"a\\n\" 'b' <<= 'c: x\n";
    let (_, stream) = extracted(source);
    assert_eq!(stream, tokens_of(source));
}

#[test]
fn lines_start_behind_line_feeds() {
    assert_eq!(line_lookup(""), Vec::<usize>::new());
    assert_eq!(line_lookup("a\n"), vec![0]);
    assert_eq!(line_lookup("a\nbc\n\nd\n"), vec![0, 2, 5, 6]);
    assert_eq!(line_lookup("\u{e9}\nb"), vec![0, 3]);
}

#[test]
fn marks_follow_the_tokens() {
    let source = "/// d\nx\n";
    let doc = extent(1, 0, 5);
    let list = vec![
        leaf(TokenKind::Punct('#', Spacing::Alone), doc),
        Token {
            kind: TokenKind::Group(Delimiter::Bracket),
            open: doc,
            close: doc,
            size: 1,
            text: String::new(),
        },
        leaf(TokenKind::Ident, doc),
        leaf(TokenKind::Ident, extent(2, 0, 1)),
    ];
    let (comments, keep) = mark_comments(source, &list).unwrap();
    assert_eq!(keep, vec![false, false, false, true]);
    assert_eq!(
        comments.get(at(2, 0)),
        Some(&vec![comment(CommentMode::DocOuter, " d")]),
    );
    assert_eq!(comments.get(at(1, 0)), None);
}

#[test]
fn marks_are_refused_where_a_token_is_not_in_the_text() {
    let beyond = vec![leaf(TokenKind::Ident, extent(3, 0, 1))];
    assert!(mark_comments("x\n", &beyond).is_none());
    let nowhere = vec![leaf(TokenKind::Literal, extent(0, 0, 1))];
    assert!(mark_comments("x\n", &nowhere).is_none());
    let wide = vec![leaf(TokenKind::Ident, extent(1, usize::MAX, usize::MAX))];
    assert!(mark_comments("\nx\n", &wide).is_none());
    let sign = vec![leaf(TokenKind::Punct('#', Spacing::Alone), extent(1, 9, 10))];
    assert!(mark_comments("x\n", &sign).is_none());
    let open = vec![leaf(TokenKind::Ident, extent(2, 0, 1))];
    assert!(mark_comments("/* \nx\n", &open).is_none());
    let backward =
        vec![leaf(TokenKind::Ident, extent(1, 1, 2)), leaf(TokenKind::Ident, extent(1, 0, 1))];
    assert!(mark_comments("ab\n", &backward).is_none());
}

#[test]
fn an_entry_replaces_the_one_at_its_position() {
    let list = vec![
        leaf(TokenKind::Ident, extent(2, 0, 0)),
        leaf(TokenKind::Punct('+', Spacing::Alone), Extent {
            start: LineColumn { line: 1, column: 0 },
            end: LineColumn { line: 1, column: 0 },
        }),
        leaf(TokenKind::Ident, extent(2, 0, 0)),
    ];
    let (comments, keep) = mark_comments("// a\nx\n", &list).unwrap();
    assert_eq!(keep, vec![true, true, true]);
    assert_eq!(comments.entries, vec![(at(2, 0), vec![comment(CommentMode::Normal, " a")])]);
}

#[test]
fn the_walker_steps_through_the_text() {
    let source = "// a\nx # y\n";
    let mut walker = Walker {
        source,
        line_lookup: line_lookup(source),
        comments: CommentMap::new(),
        last_offset: 0,
        keep: vec![],
    };
    assert_eq!(walker.to_offset(LineColumn { line: 2, column: 4 }), Some(9));
    assert_eq!(walker.to_offset(LineColumn { line: 3, column: 0 }), None);
    assert_eq!(walker.to_offset(LineColumn { line: 0, column: 0 }), None);
    assert_eq!(walker.is_doc_comment('#', extent(1, 0, 4)), Some(true));
    assert_eq!(walker.is_doc_comment('+', extent(1, 0, 4)), Some(false));
    assert_eq!(walker.is_doc_comment('#', extent(2, 2, 3)), Some(false));
    assert_eq!(walker.is_doc_comment('#', extent(2, 60, 61)), None);
    assert!(walker.pass(extent(2, 0, 1)));
    walker.mark(2, true);
    walker.mark(1, false);
    assert_eq!(walker.last_offset, 6);
    assert_eq!(walker.keep, vec![true, true, false]);
    assert_eq!(
        walker.comments.get(at(2, 0)),
        Some(&vec![comment(CommentMode::Normal, " a")]),
    );
    assert!(!walker.extract(LineColumn { line: 1, column: 0 }));
    assert!(walker.move_to(LineColumn { line: 2, column: 5 }));
    assert!(!walker.move_to(LineColumn { line: 4, column: 0 }));
}

#[test]
fn the_map_keeps_its_entries_in_order() {
    let mut map = CommentMap::new();
    assert_eq!(map.get(at(1, 1)), None);
    map.insert(at(2, 0), vec![comment(CommentMode::Normal, "b")]);
    map.insert(at(1, 5), vec![comment(CommentMode::Normal, "a")]);
    map.insert(at(2, 1), vec![comment(CommentMode::Normal, "c")]);
    map.insert(at(2, 0), vec![comment(CommentMode::DocOuter, "B")]);
    let keys: Vec<HashLineColumn> = map.entries.iter().map(|e| e.0).collect();
    assert_eq!(keys, vec![at(1, 5), at(2, 0), at(2, 1)]);
    assert_eq!(map.get(at(2, 0)), Some(&vec![comment(CommentMode::DocOuter, "B")]));
    assert_eq!(map.get(at(1, 5)), Some(&vec![comment(CommentMode::Normal, "a")]));
    assert_eq!(map.get(at(1, 4)), None);
    assert_eq!(map.get(at(3, 0)), None);
}

#[test]
fn positions_are_ordered_by_line_and_column() {
    let a = LineColumn { line: 1, column: 9 };
    let b = LineColumn { line: 2, column: 0 };
    let c = LineColumn { line: 2, column: 1 };
    assert!(a.before(&b) && b.before(&c) && a.before(&c));
    assert!(!b.before(&a) && !c.before(&c));
}

#[test]
fn a_position_hashes_as_its_line_and_column() {
    let mut key = DefaultHasher::new();
    at(3, 7).hash(&mut key);
    let mut pair = DefaultHasher::new();
    (3usize, 7usize).hash(&mut pair);
    assert_eq!(key.finish(), pair.finish());
}
