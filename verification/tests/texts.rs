use ledgible::text::{
    copy_range, from_chars, is_ascii_digit, is_blank_line, is_whitespace, lines_of, push_range,
    push_str, to_chars, to_string, trim_bounds, trim_end_bound, trim_start_bound,
};

fn chars(s: &str) -> Vec<char> {
    s.chars().collect()
}

fn text(v: &[char]) -> String {
    v.iter().collect()
}

#[test]
fn whitespace_is_what_trimming_removes() {
    for code in 0..0x11_0000u32 {
        if let Some(c) = char::from_u32(code) {
            assert_eq!(is_whitespace(c), c.is_whitespace(), "U+{:04X}", code);
        }
    }
}

#[test]
fn digits_are_ascii() {
    for code in 0..0x11_0000u32 {
        if let Some(c) = char::from_u32(code) {
            assert_eq!(is_ascii_digit(c), c.is_ascii_digit(), "U+{:04X}", code);
        }
    }
}

#[test]
fn strings_and_characters_convert() {
    for s in ["", "a", "a\u{e4}\u{20ac}\u{1f600} z"] {
        assert_eq!(to_chars(s), chars(s));
        assert_eq!(from_chars(&chars(s)), s);
    }
    let v = chars("hello world");
    assert_eq!(to_string(&v, 6, 11), "world");
    assert_eq!(to_string(&v, 3, 3), "");
    assert_eq!(copy_range(&v, 0, 5), chars("hello"));
    let mut out = chars("ab");
    push_range(&mut out, &v, 4, 7);
    assert_eq!(out, chars("abo w"));
    push_str(&mut out, "\u{e9}!");
    assert_eq!(out, chars("abo w\u{e9}!"));
}

#[test]
fn bounds_of_trimming() {
    let samples = [
        "",
        " ",
        "a",
        "  a  ",
        "\t\r\n a b \u{a0}\u{2003}",
        "\u{3000}x",
        "x\u{85}",
        "   ",
    ];
    for s in samples {
        let v = chars(s);
        let n = v.len();
        let e = trim_end_bound(&v, 0, n);
        assert_eq!(text(&v[..e]), s.trim_end());
        let b = trim_start_bound(&v, 0, n);
        assert_eq!(text(&v[b..]), s.trim_start());
        let (b, e) = trim_bounds(&v, 0, n);
        assert_eq!(text(&v[b..e]), s.trim());
        assert_eq!(is_blank_line(&v), s.trim().is_empty());
    }
    let v = chars("  ab  cd  ");
    assert_eq!(trim_bounds(&v, 2, 8), (2, 8));
    assert_eq!(trim_bounds(&v, 4, 6), (4, 4));
    assert_eq!(trim_bounds(&v, 3, 7), (3, 7));
    assert_eq!(trim_end_bound(&v, 3, 6), 4);
    assert_eq!(trim_start_bound(&v, 4, 8), 6);
}

#[test]
fn lines_are_cut_like_std() {
    let samples = [
        "",
        "a",
        "a\n",
        "\n",
        "\n\n",
        "a\nb",
        "a\r\nb\r\n",
        "a\r",
        "a\r\r\n",
        "\r\n\r",
        "a\n\nb\n\n",
        "a\rb\nc",
    ];
    for s in samples {
        let cut: Vec<String> = lines_of(&chars(s)).iter().map(|l| text(l)).collect();
        let std_lines: Vec<String> = s.lines().map(|l| l.to_string()).collect();
        assert_eq!(cut, std_lines, "text {:?}", s);
    }
}

fn next(seed: &mut u64) -> u64 {
    *seed = seed
        .wrapping_mul(6364136223846793005)
        .wrapping_add(1442695040888963407);
    *seed >> 33
}

#[test]
fn random_texts_are_cut_like_std() {
    let alphabet = ['a', ' ', '\n', '\n', '\r', '\t', ';', '\u{e4}'];
    let mut seed: u64 = 7;
    for _ in 0..20000 {
        let n = next(&mut seed) % 10;
        let mut s = String::new();
        for _ in 0..n {
            s.push(alphabet[(next(&mut seed) as usize) % alphabet.len()]);
        }
        let cut: Vec<String> = lines_of(&chars(&s)).iter().map(|l| text(l)).collect();
        let std_lines: Vec<String> = s.lines().map(|l| l.to_string()).collect();
        assert_eq!(cut, std_lines, "text {:?}", s);
    }
}
