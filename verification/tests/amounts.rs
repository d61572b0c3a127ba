use ledgible::amount::{
    format_amount, is_number_component, parse_amount, render_amount, Amount, Currency,
};
use ledgible::FormatError;

fn amount(mantissa: i64, precision: usize) -> Amount {
    Amount {
        mantissa,
        precision,
        currency: None,
    }
}

fn with_currency(mantissa: i64, precision: usize, symbol: &str, prepend: bool) -> Amount {
    Amount {
        mantissa,
        precision,
        currency: Some(Currency {
            symbol: symbol.to_string(),
            prepend,
        }),
    }
}

fn rejected(token: &str) -> bool {
    parse_amount(token) == Err(FormatError::AmountParseError(token.to_string()))
}

#[test]
fn dollar_amount_with_grouping() {
    let parsed = parse_amount("$1,234.50").unwrap();
    assert_eq!(parsed, with_currency(123450, 2, "$", true));
    assert_eq!(parsed.mantissa, 123450);
    assert_eq!(parsed.precision, 2);
    // the grouping is not restored; a prepended symbol is set off by a space
    assert_eq!(render_amount(&parsed), "$ 1234.50");
}

#[test]
fn plain_numbers_parse() {
    assert_eq!(parse_amount("10"), Ok(amount(10, 0)));
    assert_eq!(parse_amount("10.00"), Ok(amount(1000, 2)));
    assert_eq!(parse_amount("-10.00"), Ok(amount(-1000, 2)));
    assert_eq!(parse_amount("0.5"), Ok(amount(5, 1)));
    assert_eq!(parse_amount("-0.05"), Ok(amount(-5, 2)));
    assert_eq!(parse_amount("1,234,567"), Ok(amount(1234567, 0)));
    assert_eq!(parse_amount("1,234.5"), Ok(amount(12345, 1)));
    assert_eq!(parse_amount("00012"), Ok(amount(12, 0)));
}

#[test]
fn point_at_either_end() {
    assert_eq!(parse_amount(".5"), Ok(amount(5, 1)));
    assert_eq!(parse_amount("5."), Ok(amount(5, 0)));
    assert_eq!(format_amount(".5").unwrap(), "0.5");
    assert_eq!(format_amount("5.").unwrap(), "5");
}

#[test]
fn negative_zero_loses_its_sign() {
    assert_eq!(parse_amount("-0.00"), Ok(amount(0, 2)));
    assert_eq!(format_amount("-0.00").unwrap(), "0.00");
}

#[test]
fn currency_position_is_kept() {
    assert_eq!(parse_amount("$10"), Ok(with_currency(10, 0, "$", true)));
    assert_eq!(parse_amount("$ 10"), Ok(with_currency(10, 0, "$", true)));
    assert_eq!(parse_amount("USD 10.5"), Ok(with_currency(105, 1, "USD", true)));
    assert_eq!(parse_amount("10 USD"), Ok(with_currency(10, 0, "USD", false)));
    assert_eq!(parse_amount("10USD"), Ok(with_currency(10, 0, "USD", false)));
    assert_eq!(parse_amount("$-5"), Ok(with_currency(-5, 0, "$", true)));
    assert_eq!(parse_amount("12\u{20ac}"), Ok(with_currency(12, 0, "\u{20ac}", false)));
}

#[test]
fn spaces_around_the_runs_are_ignored() {
    assert_eq!(parse_amount(" 10 "), Ok(amount(10, 0)));
    assert_eq!(parse_amount("  $   7.25  "), Ok(with_currency(725, 2, "$", true)));
}

#[test]
fn tokens_that_are_no_amount() {
    assert!(rejected(""));
    assert!(rejected("   "));
    assert!(rejected("abc"));
    assert!(rejected("$"));
    assert!(rejected("-"));
    assert!(rejected("."));
    assert!(rejected(","));
    assert!(rejected("-."));
    assert!(rejected("1-2"));
    assert!(rejected("--1"));
    assert!(rejected("1-"));
    assert!(rejected("1.2.3"));
}

#[test]
fn a_second_run_is_rejected() {
    assert!(rejected("10 20"));
    assert!(rejected("10 USD 20"));
    assert!(rejected("USD 10 EUR"));
    assert!(rejected("-$5"));
    assert!(rejected("10 USD @ 1.5 EUR"));
}

#[test]
fn mantissa_is_bounded_by_64_bits() {
    assert_eq!(
        parse_amount("9223372036854775807"),
        Ok(amount(i64::MAX, 0))
    );
    assert!(rejected("9223372036854775808"));
    assert_eq!(
        parse_amount("-9223372036854775808"),
        Ok(amount(i64::MIN, 0))
    );
    assert!(rejected("-9223372036854775809"));
    assert!(rejected("100000000000000000000000000"));
    assert_eq!(
        parse_amount("92233720368547758.07"),
        Ok(amount(i64::MAX, 2))
    );
    assert_eq!(parse_amount("0000000000000000000000000001"), Ok(amount(1, 0)));
}

#[test]
fn error_carries_the_token() {
    match parse_amount("x y") {
        Err(FormatError::AmountParseError(token)) => assert_eq!(token, "x y"),
        other => panic!("unexpected {:?}", other),
    }
    assert_eq!(
        format_amount("n/a"),
        Err(FormatError::AmountParseError("n/a".to_string()))
    );
}

#[test]
fn numbers_render_with_padding() {
    assert_eq!(render_amount(&amount(0, 0)), "0");
    assert_eq!(render_amount(&amount(0, 3)), "0.000");
    assert_eq!(render_amount(&amount(5, 2)), "0.05");
    assert_eq!(render_amount(&amount(-5, 2)), "-0.05");
    assert_eq!(render_amount(&amount(50, 2)), "0.50");
    assert_eq!(render_amount(&amount(123, 0)), "123");
    assert_eq!(render_amount(&amount(123, 2)), "1.23");
    assert_eq!(render_amount(&amount(123, 3)), "0.123");
    assert_eq!(render_amount(&amount(123, 5)), "0.00123");
    assert_eq!(render_amount(&amount(-1000, 2)), "-10.00");
    assert_eq!(render_amount(&amount(i64::MAX, 0)), "9223372036854775807");
    assert_eq!(render_amount(&amount(i64::MIN, 0)), "-9223372036854775808");
    assert_eq!(render_amount(&amount(i64::MIN, 19)), "-0.9223372036854775808");
}

#[test]
fn currencies_render_on_their_side() {
    assert_eq!(render_amount(&with_currency(1000, 2, "$", true)), "$ 10.00");
    assert_eq!(render_amount(&with_currency(-1000, 2, "$", true)), "$-10.00");
    assert_eq!(render_amount(&with_currency(0, 0, "USD", true)), "USD 0");
    assert_eq!(render_amount(&with_currency(1000, 2, "USD", false)), "10.00USD");
    assert_eq!(render_amount(&with_currency(-1, 0, "\u{20ac}", false)), "-1\u{20ac}");
}

#[test]
fn format_amount_is_parse_then_render() {
    assert_eq!(format_amount("1,000").unwrap(), "1000");
    assert_eq!(format_amount("$5").unwrap(), "$ 5");
    assert_eq!(format_amount("$ -5").unwrap(), "$-5");
    assert_eq!(format_amount("5 EUR").unwrap(), "5EUR");
    assert_eq!(format_amount("EUR5").unwrap(), "EUR 5");
    assert_eq!(format_amount("007").unwrap(), "7");
}

#[test]
fn rendered_amounts_read_back() {
    let samples = vec![
        amount(0, 0),
        amount(7, 0),
        amount(-7, 4),
        amount(123456789, 3),
        amount(i64::MAX, 7),
        amount(i64::MIN, 1),
        with_currency(5, 2, "$", true),
        with_currency(-5, 2, "$", true),
        with_currency(1200, 0, "USD", false),
        with_currency(-1200, 3, "kr", false),
        with_currency(99, 1, "\u{a3}", true),
    ];
    for a in samples {
        let text = render_amount(&a);
        assert_eq!(parse_amount(&text), Ok(a.clone()), "text {:?}", text);
        assert_eq!(format_amount(&text).unwrap(), text);
    }
}

#[test]
fn parsed_amounts_read_back() {
    let tokens = vec![
        "1", "-1", "1.0", "01.10", "1,1", "$1", "$-1", "1$", "-1$", "USD 1,000.00", "3 h", ".5",
        "5.", "-.5",
    ];
    for token in tokens {
        let a = parse_amount(token).unwrap();
        assert_eq!(parse_amount(&render_amount(&a)), Ok(a), "token {:?}", token);
    }
}

#[test]
fn number_components() {
    for c in "0123456789-.,".chars() {
        assert!(is_number_component(c), "{:?}", c);
    }
    for c in " $+aA\t;#/e\u{660}".chars() {
        assert!(!is_number_component(c), "{:?}", c);
    }
}
