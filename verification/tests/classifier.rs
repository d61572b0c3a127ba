use ledgible::classify::{
    assign_kind, classify, classify_line, format_account, has_status, parse_comments, tokenize,
};
use ledgible::{Comment, Delimiter, FormatError, Line, LineKind};

fn raw(text: &str) -> Line {
    Line {
        kind: LineKind::Undetermined,
        content: Some(text.to_string()),
        comment: None,
    }
}

fn in_block(text: &str) -> Line {
    Line {
        kind: LineKind::Comment,
        content: Some(text.to_string()),
        comment: None,
    }
}

fn fields(items: &[&str]) -> Vec<String> {
    items.iter().map(|s| s.to_string()).collect()
}

fn comment(delimiter: Delimiter, text: &str) -> Option<Comment> {
    Some(Comment {
        delimiter,
        text: text.to_string(),
    })
}

#[test]
fn tokenize_splits_on_two_spaces() {
    assert_eq!(
        tokenize(&raw("  assets:cash  -10.00")),
        fields(&["assets:cash", "-10.00"])
    );
    assert_eq!(
        tokenize(&raw("  assets:my wallet     10 USD")),
        fields(&["assets:my wallet", "10 USD"])
    );
    assert_eq!(tokenize(&raw("a   b")), fields(&["a", "b"]));
    assert_eq!(tokenize(&raw("a b")), fields(&["a b"]));
    assert_eq!(tokenize(&raw("a  b  c")), fields(&["a", "b", "c"]));
    assert_eq!(tokenize(&raw("\ta\t  \tb ")), fields(&["a", "b"]));
}

#[test]
fn tokenize_drops_empty_fields() {
    assert_eq!(tokenize(&raw("")), fields(&[]));
    assert_eq!(tokenize(&raw("      ")), fields(&[]));
    assert_eq!(tokenize(&raw(" \t ")), fields(&[]));
    assert_eq!(tokenize(&raw("    x    ")), fields(&["x"]));
    assert_eq!(tokenize(&raw("  \t  x")), fields(&["x"]));
    let no_content = Line {
        kind: LineKind::Comment,
        content: None,
        comment: comment(Delimiter::Bare, "; x"),
    };
    assert_eq!(tokenize(&no_content), fields(&[]));
}

#[test]
fn comment_is_split_off_at_the_first_delimiter() {
    let mut line = raw("2024-01-01 Shop  ; note # more  ");
    parse_comments(&mut line);
    assert_eq!(
        line,
        Line {
            kind: LineKind::Undetermined,
            content: Some("2024-01-01 Shop".to_string()),
            comment: comment(Delimiter::Semicolon, " note # more"),
        }
    );
    let mut line = raw("  a:b  1 #x;y");
    parse_comments(&mut line);
    assert_eq!(line.content, Some("  a:b  1".to_string()));
    assert_eq!(line.comment, comment(Delimiter::Hash, "x;y"));
    let mut line = raw("x;");
    parse_comments(&mut line);
    assert_eq!(line.content, Some("x".to_string()));
    assert_eq!(line.comment, comment(Delimiter::Semicolon, ""));
}

#[test]
fn line_without_delimiter_has_no_comment() {
    let mut line = raw("  assets:cash  10 \t ");
    parse_comments(&mut line);
    assert_eq!(line.kind, LineKind::Undetermined);
    assert_eq!(line.content, Some("  assets:cash  10".to_string()));
    assert_eq!(line.comment, None);
}

#[test]
fn line_that_begins_with_a_delimiter_is_a_comment() {
    let mut line = raw("  ; indented note  ");
    parse_comments(&mut line);
    assert_eq!(
        line,
        Line {
            kind: LineKind::Comment,
            content: None,
            comment: comment(Delimiter::Bare, "  ; indented note"),
        }
    );
    let mut line = raw("# title");
    parse_comments(&mut line);
    assert_eq!(line.kind, LineKind::Comment);
    assert_eq!(line.comment, comment(Delimiter::Bare, "# title"));
}

#[test]
fn line_marked_as_comment_stays_a_comment() {
    let mut line = in_block("  assets:cash  10 ; x  ");
    parse_comments(&mut line);
    assert_eq!(
        line,
        Line {
            kind: LineKind::Comment,
            content: None,
            comment: comment(Delimiter::Bare, "  assets:cash  10 ; x"),
        }
    );
}

#[test]
fn comment_text_is_written_with_its_marker() {
    let c = Comment {
        delimiter: Delimiter::Semicolon,
        text: " note".to_string(),
    };
    assert_eq!(c.to_text(), "; note");
    let c = Comment {
        delimiter: Delimiter::Hash,
        text: "tag".to_string(),
    };
    assert_eq!(c.to_text(), "#tag");
    let c = Comment {
        delimiter: Delimiter::Bare,
        text: "  ; verbatim".to_string(),
    };
    assert_eq!(c.to_text(), "  ; verbatim");
}

#[test]
fn kinds_by_first_character() {
    assert_eq!(assign_kind(raw("2024-01-01 Shop")).kind, LineKind::Date);
    assert_eq!(assign_kind(raw("9")).kind, LineKind::Date);
    assert_eq!(
        assign_kind(raw("  assets:cash  10")).kind,
        LineKind::Posting(fields(&["assets:cash", "10"]))
    );
    assert_eq!(
        assign_kind(raw("\tassets:cash")).kind,
        LineKind::Posting(fields(&["assets:cash"]))
    );
    assert_eq!(assign_kind(raw("account assets")).kind, LineKind::Other);
    assert_eq!(assign_kind(raw("P 2024-01-01 USD 1")).kind, LineKind::Other);
    assert_eq!(assign_kind(raw("; note")).kind, LineKind::Comment);
}

#[test]
fn indented_digit_is_a_posting() {
    // the first character of the content decides, not that of its first field
    assert_eq!(
        assign_kind(raw("  2024  10")).kind,
        LineKind::Posting(fields(&["2024", "10"]))
    );
}

#[test]
fn blank_lines_are_other() {
    let line = assign_kind(raw(""));
    assert_eq!(line.kind, LineKind::Other);
    assert_eq!(line.content, Some(String::new()));
    assert_eq!(line.comment, None);
    let line = assign_kind(raw("   \t "));
    assert_eq!(line.kind, LineKind::Other);
    assert_eq!(line.content, Some(String::new()));
    // whitespace that is neither space nor tab
    let line = assign_kind(raw("\u{a0}x"));
    assert_eq!(line.kind, LineKind::Other);
    assert_eq!(line.content, Some("\u{a0}x".to_string()));
}

#[test]
fn assign_kind_keeps_the_trailing_comment() {
    let line = assign_kind(raw("  a  1.5 ; why  "));
    assert_eq!(
        line,
        Line {
            kind: LineKind::Posting(fields(&["a", "1.5"])),
            content: Some("  a  1.5".to_string()),
            comment: comment(Delimiter::Semicolon, " why"),
        }
    );
}

#[test]
fn assign_kind_in_a_block_is_a_comment() {
    let line = assign_kind(in_block("2024-01-01 Shop"));
    assert_eq!(
        line,
        Line {
            kind: LineKind::Comment,
            content: None,
            comment: comment(Delimiter::Bare, "2024-01-01 Shop"),
        }
    );
}

#[test]
fn status_markers() {
    assert!(has_status("! assets:cash"));
    assert!(has_status("* assets:cash"));
    assert!(has_status("! "));
    assert!(!has_status("!assets:cash"));
    assert!(!has_status("!"));
    assert!(!has_status(""));
    assert!(!has_status("assets:cash"));
    assert!(!has_status(" ! assets"));
    assert!(!has_status("!\tassets"));
    assert!(!has_status("? assets"));
}

#[test]
fn account_fields() {
    assert_eq!(format_account("assets:cash"), "    assets:cash");
    assert_eq!(format_account("! assets:cash"), "  ! assets:cash");
    assert_eq!(format_account("* assets:cash"), "  * assets:cash");
    assert_eq!(format_account("  assets:cash \t"), "    assets:cash");
    assert_eq!(format_account(""), "    ");
}

#[test]
fn classify_line_opens_and_closes_blocks() {
    let (state, line) = classify_line(None, 4, "  Comment ").unwrap();
    assert_eq!(state, Some(4));
    assert_eq!(line.kind, LineKind::Comment);
    assert_eq!(line.comment, comment(Delimiter::Bare, "  Comment"));

    let (state, line) = classify_line(Some(4), 5, "2024-01-01 Shop").unwrap();
    assert_eq!(state, Some(4));
    assert_eq!(line.kind, LineKind::Comment);
    assert_eq!(line.content, None);

    let (state, line) = classify_line(Some(4), 6, "comment").unwrap();
    assert_eq!(state, Some(4));
    assert_eq!(line.kind, LineKind::Comment);

    let (state, line) = classify_line(Some(4), 7, "END COMMENT").unwrap();
    assert_eq!(state, None);
    assert_eq!(line.kind, LineKind::Comment);
    assert_eq!(line.comment, comment(Delimiter::Bare, "END COMMENT"));

    let (state, line) = classify_line(None, 8, "2024-01-01 Shop").unwrap();
    assert_eq!(state, None);
    assert_eq!(line.kind, LineKind::Date);
}

#[test]
fn classify_line_rejects_a_stray_end() {
    assert_eq!(
        classify_line(None, 12, " end comment"),
        Err(FormatError::UnexpectedEndComment(12))
    );
    // two spaces, or anything else on the line: no closing word
    assert!(classify_line(None, 1, "end  comment").is_ok());
    assert!(classify_line(None, 1, "end comment ; x").is_ok());
    assert!(classify_line(None, 1, "end comments").is_ok());
}

#[test]
fn lines_in_a_block_are_comments() {
    let input = "comment\n2024-01-01 Shop\n  a  1 ; x\n\n# y\nend comment\n2024-01-02 Shop\n";
    let lines = classify(input).unwrap();
    assert_eq!(lines.len(), 7);
    let texts = vec![
        "comment",
        "2024-01-01 Shop",
        "  a  1 ; x",
        "",
        "# y",
        "end comment",
    ];
    for (line, text) in lines.iter().zip(texts) {
        assert_eq!(line.kind, LineKind::Comment);
        assert_eq!(line.content, None);
        assert_eq!(line.comment, comment(Delimiter::Bare, text));
    }
    assert_eq!(lines[6].kind, LineKind::Date);
}

#[test]
fn classify_reads_every_line() {
    let lines = classify("2024-01-01 Shop ; a\n  x:y  1\n\nP foo\n").unwrap();
    assert_eq!(
        lines,
        vec![
            Line {
                kind: LineKind::Date,
                content: Some("2024-01-01 Shop".to_string()),
                comment: comment(Delimiter::Semicolon, " a"),
            },
            Line {
                kind: LineKind::Posting(fields(&["x:y", "1"])),
                content: Some("  x:y  1".to_string()),
                comment: None,
            },
            Line {
                kind: LineKind::Other,
                content: Some(String::new()),
                comment: None,
            },
            Line {
                kind: LineKind::Other,
                content: Some("P foo".to_string()),
                comment: None,
            },
        ]
    );
}

#[test]
fn classify_handles_line_endings() {
    assert_eq!(classify("").unwrap(), vec![]);
    assert_eq!(classify("\n\n").unwrap(), vec![]);
    let unix = classify("1 a\n  b  2\n").unwrap();
    assert_eq!(classify("1 a\r\n  b  2\r\n").unwrap(), unix);
    assert_eq!(classify("1 a\n  b  2").unwrap(), unix);
    assert_eq!(classify("1 a\n  b  2\r").unwrap(), unix);
}

#[test]
fn leading_blank_lines_are_not_counted() {
    assert_eq!(
        classify("\n  \n\t\nend comment\n"),
        Err(FormatError::UnexpectedEndComment(1))
    );
    assert_eq!(
        classify("\n\n2024-01-01 x\n\nend comment\n"),
        Err(FormatError::UnexpectedEndComment(3))
    );
    assert_eq!(classify("\n\n2024-01-01 x\n").unwrap().len(), 1);
    // blank lines further down are lines
    assert_eq!(classify("2024-01-01 x\n\n\n").unwrap().len(), 3);
}

#[test]
fn open_block_is_reported_where_it_was_opened() {
    assert_eq!(
        classify("comment\n"),
        Err(FormatError::UnterminatedCommentBlock(1))
    );
    assert_eq!(
        classify("2024-01-01 x\n  a  1\ncomment\nfoo\ncomment\nbar\n"),
        Err(FormatError::UnterminatedCommentBlock(3))
    );
    assert_eq!(
        classify("comment\nend comment\n\ncomment\n"),
        Err(FormatError::UnterminatedCommentBlock(4))
    );
}

#[test]
fn first_error_wins() {
    assert_eq!(
        classify("end comment\ncomment\n"),
        Err(FormatError::UnexpectedEndComment(1))
    );
    assert_eq!(
        classify("comment\nend comment\nend comment\ncomment\n"),
        Err(FormatError::UnexpectedEndComment(3))
    );
}
