use ledgible::layout::{layout, measure, Widths};
use ledgible::{Comment, Delimiter, FormatError, Line, LineKind};

fn formatted(input: &str) -> Result<String, FormatError> {
    let mut buffer = String::new();
    ledgible::format(&mut buffer, input)?;
    Ok(buffer)
}

fn posting(fields: &[&str]) -> Line {
    Line {
        kind: LineKind::Posting(fields.iter().map(|s| s.to_string()).collect()),
        content: Some(String::new()),
        comment: None,
    }
}

fn other(content: &str) -> Line {
    Line {
        kind: LineKind::Other,
        content: Some(content.to_string()),
        comment: None,
    }
}

fn next(seed: &mut u64) -> u64 {
    *seed = seed
        .wrapping_mul(6364136223846793005)
        .wrapping_add(1442695040888963407);
    *seed >> 33
}

#[test]
fn groceries_postings_align() {
    let input = "2024-01-01 Groceries\n  assets:cash  -10.00\n  expenses:food  10.00\n";
    let out = formatted(input).unwrap();
    assert_eq!(
        out,
        "2024-01-01 Groceries\n      assets:cash  -10.00\n    expenses:food  10.00\n"
    );
    let lines: Vec<&str> = out.lines().collect();
    assert_eq!(lines.len(), input.lines().count());
    assert_eq!(lines[1].find("-10.00"), Some(19));
    assert_eq!(lines[2].find("10.00"), Some(19));
}

#[test]
fn lone_end_comment_is_rejected() {
    assert_eq!(
        formatted("end comment\n"),
        Err(FormatError::UnexpectedEndComment(1))
    );
}

#[test]
fn unterminated_block_is_rejected() {
    assert_eq!(
        formatted("2024-01-01 x\ncomment\n  a  1\n"),
        Err(FormatError::UnterminatedCommentBlock(2))
    );
}

#[test]
fn bad_amount_is_rejected() {
    assert_eq!(
        formatted("2024-01-01 x\n  a  1\n  b  one\n  c  two\n"),
        Err(FormatError::AmountParseError("one".to_string()))
    );
    assert_eq!(
        formatted("2024-01-01 x\n  a  10 USD @ 2 EUR\n"),
        Err(FormatError::AmountParseError("10 USD @ 2 EUR".to_string()))
    );
}

#[test]
fn classification_errors_come_first() {
    assert_eq!(
        formatted("  a  one\nend comment\n"),
        Err(FormatError::UnexpectedEndComment(2))
    );
    assert_eq!(
        formatted("  a  one\ncomment\n"),
        Err(FormatError::UnterminatedCommentBlock(2))
    );
}

#[test]
fn empty_journal_is_one_line_feed() {
    assert_eq!(formatted("").unwrap(), "\n");
    assert_eq!(formatted("\n\n  \n").unwrap(), "\n");
}

#[test]
fn blank_lines_at_the_ends_are_dropped() {
    assert_eq!(
        formatted("\n\n2024-01-01 a\n\n2024-01-02 b\n\n\n").unwrap(),
        "2024-01-01 a\n\n2024-01-02 b\n"
    );
    assert_eq!(formatted("2024-01-01 a").unwrap(), "2024-01-01 a\n");
}

#[test]
fn amounts_are_rewritten() {
    assert_eq!(
        formatted("2024-01-01 a\n  x  $1,000.50\n  y  -5 EUR\n  z\n").unwrap(),
        "2024-01-01 a\n    x  $ 1000.50\n    y  -5EUR\n    z\n"
    );
}

#[test]
fn fields_behind_the_amount_are_dropped() {
    assert_eq!(
        formatted("1 a\n  x  1  2  3\n").unwrap(),
        "1 a\n    x  1\n"
    );
}

#[test]
fn status_markers_take_two_columns_of_the_indent() {
    assert_eq!(
        formatted("2024-01-01 a\n  ! assets:cash  5\n  assets:bank  -5\n  * x  0\n").unwrap(),
        "2024-01-01 a\n  ! assets:cash  5\n    assets:bank  -5\n            * x  0\n"
    );
}

#[test]
fn tabs_indent_postings() {
    assert_eq!(
        formatted("2024-01-01 a\n\tassets:cash  5\n").unwrap(),
        "2024-01-01 a\n    assets:cash  5\n"
    );
}

#[test]
fn trailing_comments_are_aligned() {
    let out = formatted("2024-01-01 Shop ; a\n  x  1 ;b\nP long directive here  # c\n").unwrap();
    assert_eq!(
        out,
        "2024-01-01 Shop       ; a\n    x  1              ;b\nP long directive here # c\n"
    );
    for line in out.lines() {
        assert_eq!(line.find(|c| c == ';' || c == '#'), Some(22));
    }
}

#[test]
fn comment_lines_are_kept_verbatim() {
    assert_eq!(
        formatted("; top  \n2024-01-01 a\n   # inner\t\n  x  1\n").unwrap(),
        "; top\n2024-01-01 a\n   # inner\n    x  1\n"
    );
}

#[test]
fn comment_block_is_kept_verbatim() {
    let input = "2024-01-01 a\nComment\n  x  1   ; y \n\nnot  an   amount\nEnd Comment\n  x  1\n";
    assert_eq!(
        formatted(input).unwrap(),
        "2024-01-01 a\nComment\n  x  1   ; y\n\nnot  an   amount\nEnd Comment\n    x  1\n"
    );
}

#[test]
fn comment_lines_do_not_widen_the_line() {
    assert_eq!(
        formatted("; a very long comment line indeed\n1 a ; b\n").unwrap(),
        "; a very long comment line indeed\n1 a ; b\n"
    );
}

#[test]
fn line_width_follows_the_account_column_as_it_grows() {
    // the first posting is measured against an account column of 5, but
    // written into one of 14: it comes out wider than the line width of 17
    let out = formatted("  a  1000000 ; c1\n  abcdefghij  1 ; c2\n").unwrap();
    assert_eq!(
        out,
        "             a  1000000 ; c1\n    abcdefghij  1 ; c2\n"
    );
    let lines: Vec<&str> = out.lines().collect();
    assert_eq!(lines[0].find('1'), lines[1].find('1'));
    assert_eq!(lines[0].find(';'), Some(24));
    assert_eq!(lines[1].find(';'), Some(18));
}

#[test]
fn format_appends_to_the_buffer() {
    let mut buffer = String::from("; head\n\n");
    ledgible::format(&mut buffer, "1 a\n  x  1\n\n").unwrap();
    assert_eq!(buffer, "; head\n\n1 a\n    x  1\n");
    let mut buffer = String::from("; head   \n \n");
    ledgible::format(&mut buffer, "").unwrap();
    assert_eq!(buffer, "; head\n");
}

#[test]
fn format_leaves_the_buffer_on_error() {
    let mut buffer = String::from("kept  \n\n");
    assert!(ledgible::format(&mut buffer, "1 a\n  x  y\n").is_err());
    assert_eq!(buffer, "kept  \n\n");
    assert!(ledgible::format(&mut buffer, "comment\n").is_err());
    assert_eq!(buffer, "kept  \n\n");
}

#[test]
fn measure_finds_both_widths() {
    let lines = vec![
        other("12345678901234567890"),
        posting(&["assets:cash", "-10.00"]),
        posting(&["! expenses:food", "10.00"]),
        Line {
            kind: LineKind::Comment,
            content: None,
            comment: Some(Comment {
                delimiter: Delimiter::Bare,
                text: "; a comment that is wider than anything else here".to_string(),
            }),
        },
    ];
    assert_eq!(
        measure(&lines),
        Ok(Widths {
            account: 17,
            line: 24
        })
    );
    assert_eq!(
        measure(&lines[..1].to_vec()),
        Ok(Widths {
            account: 0,
            line: 20
        })
    );
    assert_eq!(
        measure(&lines[..2].to_vec()),
        Ok(Widths {
            account: 15,
            line: 23
        })
    );
    assert_eq!(measure(&Vec::new()), Ok(Widths { account: 0, line: 0 }));
}

#[test]
fn measure_counts_characters() {
    let lines = vec![posting(&["\u{e4}\u{f6}\u{fc}", "1\u{20ac}"])];
    assert_eq!(
        measure(&lines),
        Ok(Widths {
            account: 7,
            line: 11
        })
    );
}

#[test]
fn measure_reports_the_first_bad_amount() {
    let lines = vec![
        posting(&["a", "1"]),
        posting(&["b", "x"]),
        posting(&["c", "y"]),
    ];
    assert_eq!(
        measure(&lines),
        Err(FormatError::AmountParseError("x".to_string()))
    );
}

#[test]
fn layout_rejects_a_line_without_kind() {
    let lines = vec![
        other("fine"),
        Line {
            kind: LineKind::Undetermined,
            content: Some("what".to_string()),
            comment: None,
        },
    ];
    let mut buffer = String::from("before");
    assert_eq!(
        layout(&mut buffer, &lines),
        Err(FormatError::UndeterminedLineKind)
    );
    assert_eq!(buffer, "before");
}

#[test]
fn bad_amount_wins_over_missing_kind() {
    let lines = vec![
        Line {
            kind: LineKind::Undetermined,
            content: Some("what".to_string()),
            comment: None,
        },
        posting(&["a", "x"]),
    ];
    let mut buffer = String::new();
    assert_eq!(
        layout(&mut buffer, &lines),
        Err(FormatError::AmountParseError("x".to_string()))
    );
}

#[test]
fn layout_writes_records() {
    let lines = vec![
        other("2024-01-01 a"),
        Line {
            kind: LineKind::Posting(vec!["  x ".to_string()]),
            content: Some("ignored".to_string()),
            comment: Some(Comment {
                delimiter: Delimiter::Hash,
                text: " note ".to_string(),
            }),
        },
    ];
    let mut buffer = String::new();
    assert_eq!(layout(&mut buffer, &lines), Ok(()));
    assert_eq!(buffer, "2024-01-01 a\n       x     # note\n");
}

#[test]
fn canonical_journals_are_fixed_points() {
    let journals = vec![
        "",
        "\n",
        "2024-01-01 Groceries\n  assets:cash  -10.00\n  expenses:food  10.00\n",
        "2024-01-01 Shop ; a\n  x  1 ;b\nP long directive here  # c\n",
        "  a  1000000 ; c1\n  abcdefghij  1 ; c2\n",
        "; top\n\ncomment\n  x  1   ; y \n\nend comment\n2024-01-01 a\n  ! x   $1,000  ;\n  * y\n",
        "\n\n1 a\r\n\tx \t 5 USD\r\n\n\n",
        "  end  1\n  comment;x\n",
        "  \u{a0}a  1\n\u{2003}b\n",
    ];
    for journal in journals {
        let once = formatted(journal).unwrap();
        assert_eq!(formatted(&once), Ok(once.clone()), "journal {:?}", journal);
    }
}

#[test]
fn random_journals_are_fixed_points() {
    let alphabet: Vec<&str> = vec![
        " ", " ", "  ", "\t", ";", "#", "a", "b", "1", "0", "-", ".", ",", "$", "\n", "\n", "!",
        "*", "comment", "end comment", "\r", "\u{a0}", "USD", "! ", "* ", "  1.5", "  $2", "\n  ",
        "\n2024",
    ];
    let mut seed: u64 = 12345;
    let mut checked = 0;
    for _ in 0..20000 {
        let n = next(&mut seed) % 14;
        let mut s = String::new();
        for _ in 0..n {
            let k = (next(&mut seed) as usize) % alphabet.len();
            s.push_str(alphabet[k]);
        }
        if let Ok(once) = formatted(&s) {
            assert_eq!(formatted(&once), Ok(once.clone()), "input {:?}", s);
            checked += 1;
        }
    }
    assert!(checked > 1000);
}

#[test]
fn amounts_of_random_journals_are_aligned() {
    let accounts = ["a", "assets:cash", "! x", "* expenses:food and drink", "b c"];
    let amounts = ["1", "-2.50", "$3", "4 EUR", "1,000.00", ""];
    let comments = ["", " ; note", "  # tag"];
    let mut seed: u64 = 2024;
    for _ in 0..2000 {
        let n = 1 + next(&mut seed) % 6;
        let mut journal = String::from("2024-01-01 Shop\n");
        let mut expected_amounts: Vec<String> = Vec::new();
        for _ in 0..n {
            let account = accounts[(next(&mut seed) as usize) % accounts.len()];
            let amount = amounts[(next(&mut seed) as usize) % amounts.len()];
            let comment = comments[(next(&mut seed) as usize) % comments.len()];
            journal.push_str(&format!("  {}  {}{}\n", account, amount, comment));
            expected_amounts.push(if amount.is_empty() {
                String::new()
            } else {
                ledgible::amount::format_amount(amount).unwrap()
            });
        }
        let out = formatted(&journal).unwrap();
        let lines: Vec<&str> = out.lines().collect();
        assert_eq!(lines.len(), 1 + n as usize);
        let widest = lines[1..]
            .iter()
            .map(|l| l.find(|c: char| c != ' ').unwrap())
            .min()
            .unwrap();
        assert!(widest == 2 || widest == 4);
        let mut column = None;
        for (line, amount) in lines[1..].iter().zip(expected_amounts) {
            if amount.is_empty() {
                continue;
            }
            let content = line.split(|c| c == ';' || c == '#').next().unwrap();
            let start = content.trim_end().len() - amount.len();
            assert_eq!(&content.trim_end()[start..], amount);
            assert_eq!(&content[start - 2..start], "  ");
            match column {
                None => column = Some(start),
                Some(c) => assert_eq!(c, start, "journal {:?}", journal),
            }
        }
    }
}
