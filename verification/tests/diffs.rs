use ledgible::diff::{
    fits_limits, group_mismatches, line_count, make_diff, report_lines, AlignedLine, DiffLine,
    Mismatch, ReportLine, Tone,
};

fn context(s: &str) -> DiffLine {
    DiffLine::Context(s.to_string())
}

fn expected(s: &str) -> DiffLine {
    DiffLine::Expected(s.to_string())
}

fn resulting(s: &str) -> DiffLine {
    DiffLine::Resulting(s.to_string())
}

fn left(s: &str) -> AlignedLine {
    AlignedLine::Left(s.to_string())
}

fn both(s: &str) -> AlignedLine {
    AlignedLine::Both(s.to_string())
}

fn right(s: &str) -> AlignedLine {
    AlignedLine::Right(s.to_string())
}

fn mismatch(line_number: u32, line_number_orig: u32, lines: Vec<DiffLine>) -> Mismatch {
    Mismatch {
        line_number,
        line_number_orig,
        lines,
    }
}

#[test]
fn one_changed_line_with_context() {
    let diff = make_diff("a\nb\nc\n", "a\nX\nc\n", 1);
    assert_eq!(
        diff,
        vec![mismatch(
            1,
            1,
            vec![context("a"), resulting("b"), expected("X"), context("c")]
        )]
    );
}

#[test]
fn equal_texts_have_no_mismatch() {
    assert_eq!(make_diff("", "", 3), vec![]);
    assert_eq!(make_diff("a\nb\n", "a\nb\n", 3), vec![]);
    assert_eq!(make_diff("a\nb", "a\nb", 0), vec![]);
    assert_eq!(make_diff("\n\n", "\n\n", 1), vec![]);
}

#[test]
fn line_endings_do_not_count() {
    assert_eq!(make_diff("a\r\nb\r\n", "a\nb\n", 3), vec![]);
}

#[test]
fn final_line_feed_counts() {
    assert_eq!(
        make_diff("a\n", "a", 3),
        vec![mismatch(1, 1, vec![context("a"), resulting("")])]
    );
    assert_eq!(
        make_diff("a", "a\n", 3),
        vec![mismatch(1, 1, vec![context("a"), expected("")])]
    );
    assert_eq!(
        make_diff("", "\n", 3),
        vec![mismatch(1, 1, vec![expected(""), expected("")])]
    );
}

#[test]
fn mismatch_is_new() {
    assert_eq!(Mismatch::new(3, 4), mismatch(3, 4, vec![]));
    assert_eq!(Mismatch::new(0, 0).lines.len(), 0);
}

#[test]
fn context_is_bounded() {
    let original = "1\n2\n3\n4\n5\n6\n7\n8\n9";
    let canonical = "1\n2\n3\n4\nX\n6\n7\n8\n9";
    assert_eq!(
        make_diff(original, canonical, 2),
        vec![mismatch(
            3,
            3,
            vec![
                context("3"),
                context("4"),
                resulting("5"),
                expected("X"),
                context("6"),
                context("7"),
            ]
        )]
    );
    assert_eq!(
        make_diff(original, canonical, 0),
        vec![
            mismatch(5, 5, vec![resulting("5")]),
            mismatch(5, 6, vec![expected("X")]),
        ]
    );
    assert_eq!(
        make_diff(original, canonical, 100),
        vec![mismatch(
            1,
            1,
            vec![
                context("1"),
                context("2"),
                context("3"),
                context("4"),
                resulting("5"),
                expected("X"),
                context("6"),
                context("7"),
                context("8"),
                context("9"),
            ]
        )]
    );
}

#[test]
fn close_changes_share_a_mismatch() {
    assert_eq!(
        make_diff("a\nb\nc\n", "A\nb\nC\n", 2),
        vec![mismatch(
            1,
            1,
            vec![
                resulting("a"),
                expected("A"),
                context("b"),
                resulting("c"),
                expected("C"),
                context(""),
            ]
        )]
    );
}

#[test]
fn distant_changes_are_reported_apart() {
    assert_eq!(
        make_diff("a\nb\nc\nd\ne\n", "a\nB\nc\nD\ne\n", 1),
        vec![
            mismatch(
                1,
                1,
                vec![context("a"), resulting("b"), expected("B"), context("c")]
            ),
            mismatch(4, 4, vec![resulting("d"), expected("D"), context("e")]),
        ]
    );
}

#[test]
fn line_numbers_follow_both_texts() {
    // two lines removed before, one line added at the end
    assert_eq!(
        make_diff("x\ny\na\nb\nc\nd", "a\nb\nc\nd\nz", 1),
        vec![
            mismatch(1, 1, vec![resulting("x"), resulting("y"), context("a")]),
            mismatch(4, 6, vec![context("d"), expected("z")]),
        ]
    );
}

#[test]
fn grouping_of_a_given_alignment() {
    let script = vec![
        both("a"),
        both("b"),
        both("c"),
        right("d"),
        both("e"),
        both("f"),
        both("g"),
        left("h"),
    ];
    assert_eq!(
        group_mismatches(&script, 1),
        vec![
            mismatch(3, 3, vec![context("c"), expected("d"), context("e")]),
            mismatch(7, 6, vec![context("g"), resulting("h")]),
        ]
    );
    assert_eq!(
        group_mismatches(&script, 2),
        vec![
            mismatch(
                2,
                2,
                vec![
                    context("b"),
                    context("c"),
                    expected("d"),
                    context("e"),
                    context("f")
                ]
            ),
            mismatch(7, 6, vec![context("g"), resulting("h")]),
        ]
    );
    // three unchanged lines between two changes is as far as the context
    // of the first one reaches: the second one begins a mismatch of its own
    assert_eq!(
        group_mismatches(&script, 3),
        vec![
            mismatch(
                1,
                1,
                vec![
                    context("a"),
                    context("b"),
                    context("c"),
                    expected("d"),
                    context("e"),
                    context("f"),
                    context("g"),
                ]
            ),
            mismatch(8, 7, vec![resulting("h")]),
        ]
    );
    assert_eq!(
        group_mismatches(&script, 4),
        vec![mismatch(
            1,
            1,
            vec![
                context("a"),
                context("b"),
                context("c"),
                expected("d"),
                context("e"),
                context("f"),
                context("g"),
                resulting("h"),
            ]
        )]
    );
    assert_eq!(
        group_mismatches(&script, 0),
        vec![
            mismatch(4, 4, vec![expected("d")]),
            mismatch(8, 7, vec![resulting("h")]),
        ]
    );
}

#[test]
fn grouping_without_a_difference_is_empty() {
    assert_eq!(group_mismatches(&vec![], 3), vec![]);
    assert_eq!(group_mismatches(&vec![both("a"), both("b")], 0), vec![]);
    assert_eq!(group_mismatches(&vec![both("a"), both("b")], 1), vec![]);
}

#[test]
fn huge_context_size_is_fine() {
    assert_eq!(
        make_diff("a\nb", "a\nc", usize::MAX),
        vec![mismatch(
            1,
            1,
            vec![context("a"), resulting("b"), expected("c")]
        )]
    );
}

#[test]
fn check_of_a_journal() {
    let original = "2024-01-01 a\n  x  1\n  yy  2\n";
    let mut canonical = String::new();
    ledgible::format(&mut canonical, original).unwrap();
    assert!(fits_limits(original, &canonical));
    assert_eq!(
        make_diff(original, &canonical, 3),
        vec![mismatch(
            1,
            1,
            vec![
                context("2024-01-01 a"),
                resulting("  x  1"),
                resulting("  yy  2"),
                expected("     x  1"),
                expected("    yy  2"),
                context(""),
            ]
        )]
    );
    assert_eq!(make_diff(&canonical, &canonical, 3), vec![]);
}

#[test]
fn lines_are_counted() {
    let count = |s: &str| line_count(&s.chars().collect());
    assert_eq!(count(""), 0);
    assert_eq!(count("a"), 1);
    assert_eq!(count("a\n"), 1);
    assert_eq!(count("\n"), 1);
    assert_eq!(count("a\nb"), 2);
    assert_eq!(count("a\r\nb\n\n"), 3);
    for s in ["", "a", "a\n", "\n\n\nx", "a\r\n\r\nb\r"] {
        assert_eq!(count(s), s.lines().count());
    }
}

#[test]
fn ordinary_texts_fit_the_limits() {
    assert!(fits_limits("", ""));
    assert!(fits_limits("a\nb\nc\n", "a\nX\nc\n"));
    let long = "x\n".repeat(10_000);
    assert!(fits_limits(&long, &long));
}

#[test]
fn report_of_a_mismatch() {
    let m = mismatch(
        1,
        1,
        vec![context("a"), resulting("b"), expected("X"), context("")],
    );
    assert_eq!(
        report_lines(&m),
        vec![
            ReportLine {
                text: " a".to_string(),
                tone: Tone::Plain
            },
            ReportLine {
                text: "-b".to_string(),
                tone: Tone::Removal
            },
            ReportLine {
                text: "+X".to_string(),
                tone: Tone::Addition
            },
            ReportLine {
                text: " ".to_string(),
                tone: Tone::Plain
            },
        ]
    );
    assert_eq!(report_lines(&Mismatch::new(1, 1)), vec![]);
}

fn next(seed: &mut u64) -> u64 {
    *seed = seed
        .wrapping_mul(6364136223846793005)
        .wrapping_add(1442695040888963407);
    *seed >> 33
}

fn random_text(seed: &mut u64) -> String {
    let alphabet = ["a", "b", "\n", "\n", "\r\n", "c\n", ""];
    let n = next(seed) % 8;
    let mut s = String::new();
    for _ in 0..n {
        s.push_str(alphabet[(next(seed) as usize) % alphabet.len()]);
    }
    s
}

fn compared_lines(s: &str) -> Vec<String> {
    let mut lines: Vec<String> = s.lines().map(|l| l.to_string()).collect();
    if s.ends_with('\n') {
        lines.push(String::new());
    }
    lines
}

#[test]
fn nothing_is_reported_exactly_for_equal_lines() {
    let mut seed: u64 = 99;
    let mut equal = 0;
    for round in 0..20000 {
        let a = random_text(&mut seed);
        let b = if round % 3 == 0 {
            a.replace("\r\n", "\n")
        } else {
            random_text(&mut seed)
        };
        let context_size = (next(&mut seed) % 4) as usize;
        let diff = make_diff(&a, &b, context_size);
        let same = compared_lines(&a) == compared_lines(&b);
        assert_eq!(diff.is_empty(), same, "texts {:?} and {:?}", a, b);
        if same {
            equal += 1;
        }
    }
    assert!(equal > 1000);
}

#[test]
fn mismatches_account_for_every_changed_line() {
    let mut seed: u64 = 5;
    for _ in 0..5000 {
        let a = random_text(&mut seed);
        let b = random_text(&mut seed);
        let context_size = (next(&mut seed) % 4) as usize;
        let diff = make_diff(&a, &b, context_size);
        // taking the removed lines out of the source text and putting the
        // added ones in gives as many lines as the canonical text has
        let removed: usize = diff
            .iter()
            .flat_map(|m| m.lines.iter())
            .filter(|l| matches!(l, DiffLine::Resulting(_)))
            .count();
        let added: usize = diff
            .iter()
            .flat_map(|m| m.lines.iter())
            .filter(|l| matches!(l, DiffLine::Expected(_)))
            .count();
        assert_eq!(
            compared_lines(&a).len() + added,
            compared_lines(&b).len() + removed,
            "texts {:?} and {:?}",
            a,
            b
        );
        for m in &diff {
            assert!(m.line_number >= 1 && m.line_number_orig >= 1);
            assert!(!m.lines.is_empty());
        }
    }
}

#[test]
fn with_unbounded_context_every_line_is_shown() {
    let mut seed: u64 = 31;
    let mut differing = 0;
    for _ in 0..5000 {
        let a = random_text(&mut seed);
        let b = random_text(&mut seed);
        let diff = make_diff(&a, &b, usize::MAX);
        if compared_lines(&a) == compared_lines(&b) {
            assert!(diff.is_empty());
            continue;
        }
        differing += 1;
        assert_eq!(diff.len(), 1);
        assert_eq!((diff[0].line_number, diff[0].line_number_orig), (1, 1));
        let mut source: Vec<String> = Vec::new();
        let mut canonical: Vec<String> = Vec::new();
        for line in &diff[0].lines {
            match line {
                DiffLine::Context(s) => {
                    source.push(s.clone());
                    canonical.push(s.clone());
                }
                DiffLine::Resulting(s) => source.push(s.clone()),
                DiffLine::Expected(s) => canonical.push(s.clone()),
            }
        }
        assert_eq!(source, compared_lines(&a), "texts {:?} and {:?}", a, b);
        assert_eq!(canonical, compared_lines(&b), "texts {:?} and {:?}", a, b);
    }
    assert!(differing > 1000);
}
