use genemichaels_comments::comment::{
    gap_comments, join_lines, Comment, CommentBuffer, CommentMode,
};

fn comment(mode: CommentMode, lines: &str) -> Comment {
    Comment { mode, lines: lines.to_string() }
}

fn normal(lines: &str) -> Option<Vec<Comment>> {
    Some(vec![comment(CommentMode::Normal, lines)])
}

#[test]
fn a_text_without_comments_has_none() {
    assert_eq!(gap_comments(""), Some(vec![]));
    assert_eq!(gap_comments("  \n\t "), Some(vec![]));
    assert_eq!(gap_comments("a / b * / c"), Some(vec![]));
    assert_eq!(gap_comments("a /"), Some(vec![]));
}

#[test]
fn line_comments_of_one_mode_are_one_comment() {
    assert_eq!(gap_comments("// foo\n// bar\n"), normal(" foo\n bar"));
    assert_eq!(gap_comments("\n    // foo\n    // bar\n    "), normal(" foo\n bar"));
    assert_eq!(gap_comments("// foo"), normal(" foo"));
    assert_eq!(gap_comments("//\n"), normal(""));
}

#[test]
fn the_sign_gives_the_mode() {
    assert_eq!(
        gap_comments("/// a\n//! b\n// c\n// d\n"),
        Some(vec![
            comment(CommentMode::DocOuter, " a"),
            comment(CommentMode::DocInner, " b"),
            comment(CommentMode::Normal, " c\n d"),
        ]),
    );
    assert_eq!(
        gap_comments("// a\n/// b\n// c\n"),
        Some(vec![
            comment(CommentMode::Normal, " a"),
            comment(CommentMode::DocOuter, " b"),
            comment(CommentMode::Normal, " c"),
        ]),
    );
    assert_eq!(
        gap_comments("//// four\n"),
        Some(vec![comment(CommentMode::DocOuter, "/ four")]),
    );
}

#[test]
fn block_comments_lose_their_margin() {
    assert_eq!(gap_comments("/* one\n * two\n */"), normal("one\ntwo\n"));
    assert_eq!(gap_comments("/* one\r\n   two */"), normal("one\ntwo"));
    assert_eq!(gap_comments("/*\u{3000}wide\u{3000}*/"), normal("wide"));
    assert_eq!(gap_comments("/* *kept */"), normal("*kept"));
}

#[test]
fn block_comments_are_ordinary_whatever_their_sign() {
    assert_eq!(gap_comments("/** doc */"), normal("doc"));
    assert_eq!(gap_comments("/*! doc */"), normal("! doc"));
}

#[test]
fn block_comments_nest() {
    assert_eq!(gap_comments("/* a /* b */ c */"), normal("a /* b */ c"));
    assert_eq!(gap_comments("/* a /* b */ c */ // d\n"), normal("a /* b */ c\n d"));
}

#[test]
fn an_empty_block_comment_has_no_lines() {
    assert_eq!(gap_comments("/**/"), Some(vec![]));
    assert_eq!(gap_comments("/* */"), normal(""));
}

#[test]
fn comments_in_a_row_are_joined() {
    assert_eq!(gap_comments("/* a */ /* b */"), normal("a\nb"));
    assert_eq!(gap_comments("// a\n/* b */"), normal(" a\nb"));
}

#[test]
fn what_does_not_end_cannot_be_read() {
    assert_eq!(gap_comments("/* open"), None);
    assert_eq!(gap_comments("/* a /* b */"), None);
    assert_eq!(gap_comments("/*/"), None);
    assert_eq!(gap_comments("//"), None);
    assert_eq!(gap_comments("///"), None);
    assert_eq!(gap_comments("// a\n//!"), None);
}

#[test]
fn a_line_comment_hides_what_is_in_it() {
    assert_eq!(gap_comments("// a /* b\n"), normal(" a /* b"));
    assert_eq!(gap_comments("/* a // b */"), normal("a // b"));
}

#[test]
fn written_lines_are_read_back() {
    let lines = ["", " plain", "* star", "tail //", "\u{fc}ber"];
    for (mode, sign) in [
        (CommentMode::Normal, "//"),
        (CommentMode::DocOuter, "///"),
        (CommentMode::DocInner, "//!"),
    ] {
        let mut text = String::new();
        for line in lines {
            text.push_str("    ");
            text.push_str(sign);
            text.push_str(line);
            text.push('\n');
        }
        text.push_str("  ");
        assert_eq!(gap_comments(&text), Some(vec![comment(mode, &lines.join("\n"))]));
    }
}

#[test]
fn the_buffer_closes_a_comment_when_the_mode_changes() {
    let mut buffer = CommentBuffer::new();
    buffer.flush();
    assert!(buffer.out.is_empty());
    buffer.add(CommentMode::Normal, "a".to_string());
    buffer.add(CommentMode::Normal, "b".to_string());
    assert!(buffer.out.is_empty());
    buffer.add(CommentMode::DocInner, "c".to_string());
    assert_eq!(buffer.out, vec![comment(CommentMode::Normal, "a\nb")]);
    buffer.flush();
    assert_eq!(
        buffer.out,
        vec![comment(CommentMode::Normal, "a\nb"), comment(CommentMode::DocInner, "c")],
    );
    assert!(buffer.lines.is_empty());
}

#[test]
fn lines_are_joined_by_line_feeds() {
    assert_eq!(join_lines(&vec![]), "");
    assert_eq!(join_lines(&vec!["a".to_string()]), "a");
    assert_eq!(join_lines(&vec!["a".to_string(), String::new(), "b".to_string()]), "a\n\nb");
}
