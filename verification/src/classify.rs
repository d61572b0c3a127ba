//! From raw lines to classified records: the comment splitter, the
//! tokenizer and the line classifier with its comment-block state.

use vstd::prelude::*;
use crate::text::{
    is_ws,
    is_digit,
    is_blank,
    is_ascii_digit,
    is_blank_line,
    trim,
    trim_end,
    trim_start,
    split_lines,
    texts,
    to_chars,
    from_chars,
    to_string,
    lines_of,
    trim_bounds,
    trim_end_bound,
    trim_start_bound,
    copy_range,
    lemma_trim_end_props,
    lemma_trim_start_props,
};
use crate::types::{
    Delimiter,
    Comment,
    LineKind,
    Line,
    FormatError,
    CommentView,
    KindView,
    LineView,
    ErrorView,
    views_of,
    line_views,
    fields_from_chars,
};

verus! {

// ---------------------------------------------------------------------
// Tokenizer
// ---------------------------------------------------------------------
/// The position of the first two adjacent spaces in `s`, or `s.len()` if
/// there are none.
pub open spec fn first_gap(s: Seq<char>) -> int
    decreases s.len(),
{
    if s.len() < 2 {
        s.len() as int
    } else if s[0] == ' ' && s[1] == ' ' {
        0
    } else {
        1 + first_gap(s.drop_first())
    }
}

/// What a stretch between two separators contributes: itself, trimmed, if
/// anything is left of it.
pub open spec fn field(s: Seq<char>) -> Seq<Seq<char>> {
    if trim(s).len() == 0 {
        Seq::empty()
    } else {
        seq![trim(s)]
    }
}

/// The fields of a line. Two adjacent spaces separate fields; the
/// separators are found from the left and do not overlap. Each field is
/// trimmed, and empty fields are dropped.
pub open spec fn tokens(s: Seq<char>) -> Seq<Seq<char>>
    decreases s.len(),
{
    let g = first_gap(s);
    if 0 <= g && g + 2 <= s.len() {
        field(s.take(g)) + tokens(s.skip(g + 2))
    } else {
        field(s)
    }
}

/// What holds of `first_gap`.
pub proof fn lemma_first_gap_props(s: Seq<char>)
    ensures
        0 <= first_gap(s) <= s.len(),
        first_gap(s) < s.len() ==> first_gap(s) + 2 <= s.len() && s[first_gap(s)] == ' '
            && s[first_gap(s) + 1] == ' ',
        forall|i: int|
            0 <= i < first_gap(s) && i + 1 < s.len() ==> !(#[trigger] s[i] == ' ' && s[i + 1]
                == ' '),
    decreases s.len(),
{
    if s.len() < 2 {
    } else if s[0] == ' ' && s[1] == ' ' {
    } else {
        let t = s.drop_first();
        lemma_first_gap_props(t);
        assert forall|i: int| 0 <= i < first_gap(s) && i + 1 < s.len() implies !(#[trigger] s[i]
            == ' ' && s[i + 1] == ' ') by {
            if i > 0 {
                assert(s[i] == t[i - 1]);
                assert(s[i + 1] == t[i]);
            }
        }
    }
}

/// `first_gap` is the position of two adjacent spaces, or the end, with
/// no two adjacent spaces before it.
pub proof fn lemma_first_gap_is(s: Seq<char>, g: int)
    requires
        0 <= g <= s.len(),
        g < s.len() ==> g + 2 <= s.len() && s[g] == ' ' && s[g + 1] == ' ',
        forall|i: int| 0 <= i < g && i + 1 < s.len() ==> !(#[trigger] s[i] == ' ' && s[i + 1] == ' '),
    ensures
        first_gap(s) == g,
{
    lemma_first_gap_props(s);
    let f = first_gap(s);
    if f < g {
        assert(!(s[f] == ' ' && s[f + 1] == ' '));
    } else if g < f {
        assert(!(s[g] == ' ' && s[g + 1] == ' '));
    }
}

/// Every token is trimmed and not empty.
pub proof fn lemma_tokens_clean(s: Seq<char>)
    ensures
        forall|i: int|
            0 <= i < tokens(s).len() ==> (#[trigger] tokens(s)[i]).len() > 0 && !is_ws(
                tokens(s)[i].first(),
            ) && !is_ws(tokens(s)[i].last()),
    decreases s.len(),
{
    let g = first_gap(s);
    lemma_first_gap_props(s);
    if 0 <= g && g + 2 <= s.len() {
        lemma_tokens_clean(s.skip(g + 2));
        lemma_field_clean(s.take(g));
        let f = field(s.take(g));
        assert forall|i: int| 0 <= i < tokens(s).len() implies (#[trigger] tokens(s)[i]).len() > 0
            && !is_ws(tokens(s)[i].first()) && !is_ws(tokens(s)[i].last()) by {
            if i < f.len() {
                assert(tokens(s)[i] == f[i]);
            } else {
                assert(tokens(s)[i] == tokens(s.skip(g + 2))[i - f.len()]);
            }
        }
    } else {
        lemma_field_clean(s);
    }
}

/// What a stretch contributes is trimmed and not empty.
pub proof fn lemma_field_clean(s: Seq<char>)
    ensures
        forall|i: int|
            0 <= i < field(s).len() ==> (#[trigger] field(s)[i]).len() > 0 && !is_ws(
                field(s)[i].first(),
            ) && !is_ws(field(s)[i].last()),
{
    lemma_trim_props(s);
}

/// What trimming leaves is empty or begins and ends with a character that
/// is no whitespace; it is empty exactly when `s` is blank.
pub proof fn lemma_trim_props(s: Seq<char>)
    ensures
        trim(s).len() > 0 ==> !is_ws(trim(s).first()) && !is_ws(trim(s).last()),
        trim(s).len() == 0 <==> is_blank(s),
{
    let e = trim_end(s);
    lemma_trim_end_props(s);
    lemma_trim_start_props(e);
    let t = trim(s);
    if t.len() > 0 {
        let k = e.len() - t.len();
        assert(t == e.skip(k));
        assert(t.last() == e.last());
    }
    if is_blank(s) {
        if e.len() > 0 {
            assert(e.last() == s[e.len() - 1]);
            assert(is_ws(s[e.len() - 1]));
        }
    }
    if t.len() == 0 {
        assert forall|i: int| 0 <= i < s.len() implies is_ws(#[trigger] s[i]) by {
            if i < e.len() {
                assert(e[i] == s[i]);
            }
        }
    }
}

/// The fields of `v`.
pub(crate) fn tokenize_chars(v: &Vec<char>) -> (r: Vec<Vec<char>>)
    ensures
        texts(r@) == tokens(v@),
{
    let mut r: Vec<Vec<char>> = Vec::new();
    let n = v.len();
    let mut start: usize = 0;
    proof {
        assert(v@.skip(0) =~= v@);
        assert(texts(r@) + tokens(v@) =~= tokens(v@));
    }
    loop
        invariant_except_break
            start <= n == v.len(),
            tokens(v@) == texts(r@) + tokens(v@.skip(start as int)),
        ensures
            texts(r@) == tokens(v@),
        decreases n - start,
    {
        let ghost rest = v@.skip(start as int);
        let mut g: usize = start;
        while n - g >= 2 && !(v[g] == ' ' && v[g + 1] == ' ')
            invariant
                start <= g <= n == v.len(),
                forall|i: int| start <= i < g && i + 1 < n ==> !(#[trigger] v@[i] == ' ' && v@[i + 1] == ' '),
            decreases n - g,
        {
            g += 1;
        }
        let found = n - g >= 2;
        let end = if found {
            g
        } else {
            n
        };
        proof {
            assert forall|i: int| 0 <= i < end - start && i + 1 < rest.len() implies !(
            #[trigger] rest[i] == ' ' && rest[i + 1] == ' ') by {
                assert(rest[i] == v@[start + i]);
                assert(rest[i + 1] == v@[start + i + 1]);
            }
            lemma_first_gap_is(rest, end - start);
        }
        let (b, e) = trim_bounds(v, start, end);
        let ghost before = r@;
        let ghost piece = v@.subrange(start as int, end as int);
        if b < e {
            let f = copy_range(v, b, e);
            r.push(f);
            assert(texts(r@) =~= texts(before) + field(piece));
        } else {
            assert(texts(r@) =~= texts(before) + field(piece));
        }
        if found {
            proof {
                assert(rest.take(end - start) =~= piece);
                assert(rest.skip(end - start + 2) =~= v@.skip(end + 2));
                assert(texts(r@) + tokens(v@.skip(end + 2)) =~= texts(before) + (field(piece)
                    + tokens(v@.skip(end + 2))));
            }
            start = g + 2;
        } else {
            proof {
                assert(rest =~= piece);
            }
            break ;
        }
    }
    r
}

// ---------------------------------------------------------------------
// Status markers and the account field
// ---------------------------------------------------------------------
/// An account field carries a status marker if it begins with `!` or `*`
/// and a space.
pub open spec fn status_marked(t: Seq<char>) -> bool {
    t.len() >= 2 && (t[0] == '!' || t[0] == '*') && t[1] == ' '
}

/// The width of the indent before an account: two with a status marker,
/// four without.
pub open spec fn indent_width(t: Seq<char>) -> nat {
    if status_marked(t) {
        2
    } else {
        4
    }
}

/// `n` spaces.
pub open spec fn spaces(n: nat) -> Seq<char> {
    Seq::new(n, |i: int| ' ')
}

/// An account as it is laid out: its indent, then its trimmed name.
pub open spec fn account_field(t: Seq<char>) -> Seq<char> {
    spaces(indent_width(t)) + trim(t)
}

/// Whether an account field carries a status marker.
pub(crate) fn has_status_chars(t: &Vec<char>) -> (b: bool)
    ensures
        b == status_marked(t@),
{
    t.len() >= 2 && (t[0] == '!' || t[0] == '*') && t[1] == ' '
}

/// Whether an account field carries a status marker.
pub fn has_status(token: &str) -> (b: bool)
    ensures
        b == status_marked(token@),
{
    let t = to_chars(token);
    has_status_chars(&t)
}

/// Appends `n` spaces to `out`.
pub(crate) fn push_spaces(out: &mut Vec<char>, n: u128)
    ensures
        final(out)@ == old(out)@ + spaces(n as nat),
{
    let mut i: u128 = 0;
    assert(out@ =~= old(out)@ + spaces(0));
    while i < n
        invariant
            i <= n,
            out@ == old(out)@ + spaces(i as nat),
        decreases n - i,
    {
        out.push(' ');
        i += 1;
        assert(out@ =~= old(out)@ + spaces(i as nat));
    }
}

/// Appends the account field of `t` to `out`.
pub(crate) fn push_account(out: &mut Vec<char>, t: &Vec<char>)
    ensures
        final(out)@ == old(out)@ + account_field(t@),
{
    let indent: u128 = if has_status_chars(t) {
        2
    } else {
        4
    };
    push_spaces(out, indent);
    let (b, e) = trim_bounds(t, 0, t.len());
    crate::text::push_range(out, t, b, e);
    proof {
        assert(t@.subrange(0, t@.len() as int) =~= t@);
        assert(out@ =~= old(out)@ + account_field(t@));
    }
}

/// An account as it is laid out: its indent, then its trimmed name.
pub fn format_account(account: &str) -> (s: String)
    ensures
        s@ == account_field(account@),
{
    let t = to_chars(account);
    let mut out: Vec<char> = Vec::new();
    push_account(&mut out, &t);
    assert(Seq::<char>::empty() + account_field(t@) =~= account_field(t@));
    from_chars(&out)
}

// ---------------------------------------------------------------------
// Comment splitter
// ---------------------------------------------------------------------
/// The characters that begin a comment.
pub open spec fn is_delimiter(c: char) -> bool {
    c == ';' || c == '#'
}

/// The position of the first `;` or `#` in `s`, or `s.len()`.
pub open spec fn find_delimiter(s: Seq<char>) -> int
    decreases s.len(),
{
    if s.len() == 0 || is_delimiter(s[0]) {
        0
    } else {
        1 + find_delimiter(s.drop_first())
    }
}

/// A line whose first character that is no whitespace is `;` or `#`.
pub open spec fn is_comment_line(raw: Seq<char>) -> bool {
    let t = trim_start(raw);
    t.len() > 0 && is_delimiter(t[0])
}

/// The delimiter that a marker character stands for.
pub open spec fn delimiter_of(c: char) -> Delimiter {
    if c == ';' {
        Delimiter::Semicolon
    } else {
        Delimiter::Hash
    }
}

/// A raw line split into content and comment.
///
/// A line inside a comment block (`forced`), and a line that begins with a
/// delimiter, is a comment as a whole: its text, trimmed at the end, is
/// kept verbatim and it has no content. Any other line is cut at its first
/// delimiter: what stands before it is the content, what stands behind it
/// the comment, both trimmed at the end. The kind of such a line is left
/// as it was.
pub open spec fn split_comment(forced: bool, kind: KindView, raw: Seq<char>) -> LineView {
    if forced || is_comment_line(raw) {
        LineView {
            kind: KindView::Comment,
            content: None,
            comment: Some(CommentView { delimiter: Delimiter::Bare, text: trim_end(raw) }),
        }
    } else {
        let d = find_delimiter(raw);
        if 0 <= d < raw.len() {
            LineView {
                kind,
                content: Some(trim_end(raw.take(d))),
                comment: Some(
                    CommentView { delimiter: delimiter_of(raw[d]), text: trim_end(raw.skip(d + 1)) },
                ),
            }
        } else {
            LineView { kind, content: Some(trim_end(raw)), comment: None }
        }
    }
}

/// What holds of `find_delimiter`.
pub proof fn lemma_find_delimiter_props(s: Seq<char>)
    ensures
        0 <= find_delimiter(s) <= s.len(),
        find_delimiter(s) < s.len() ==> is_delimiter(s[find_delimiter(s)]),
        forall|i: int| 0 <= i < find_delimiter(s) ==> !is_delimiter(#[trigger] s[i]),
    decreases s.len(),
{
    if s.len() == 0 || is_delimiter(s[0]) {
    } else {
        let t = s.drop_first();
        lemma_find_delimiter_props(t);
        assert forall|i: int| 0 <= i < find_delimiter(s) implies !is_delimiter(#[trigger] s[i]) by {
            if i > 0 {
                assert(s[i] == t[i - 1]);
            }
        }
    }
}

/// `find_delimiter` is the position of a delimiter, or the end, with no
/// delimiter before it.
pub proof fn lemma_find_delimiter_is(s: Seq<char>, d: int)
    requires
        0 <= d <= s.len(),
        d < s.len() ==> is_delimiter(s[d]),
        forall|i: int| 0 <= i < d ==> !is_delimiter(#[trigger] s[i]),
    ensures
        find_delimiter(s) == d,
{
    lemma_find_delimiter_props(s);
    let f = find_delimiter(s);
    if f < d {
        assert(!is_delimiter(s[f]));
    } else if d < f {
        assert(!is_delimiter(s[d]));
    }
}

/// Whether the first character of `raw` that is no whitespace is a
/// delimiter.
fn is_comment_chars(raw: &Vec<char>) -> (b: bool)
    ensures
        b == is_comment_line(raw@),
{
    let k = trim_start_bound(raw, 0, raw.len());
    proof {
        assert(raw@.subrange(0, raw@.len() as int) =~= raw@);
    }
    k < raw.len() && (raw[k] == ';' || raw[k] == '#')
}

/// The record that `raw` splits into; `kind` is the kind it keeps if it is
/// no comment as a whole.
pub(crate) fn split_chars(forced: bool, kind: LineKind, raw: &Vec<char>) -> (line: Line)
    ensures
        line@ == split_comment(forced, kind@, raw@),
{
    let n = raw.len();
    proof {
        assert(raw@.subrange(0, n as int) =~= raw@);
    }
    if forced || is_comment_chars(raw) {
        let e = trim_end_bound(raw, 0, n);
        return Line {
            kind: LineKind::Comment,
            content: None,
            comment: Some(Comment { delimiter: Delimiter::Bare, text: to_string(raw, 0, e) }),
        };
    }
    let mut d: usize = 0;
    while d < n && !(raw[d] == ';' || raw[d] == '#')
        invariant
            d <= n == raw.len(),
            forall|i: int| 0 <= i < d ==> !is_delimiter(#[trigger] raw@[i]),
        decreases n - d,
    {
        d += 1;
    }
    proof {
        lemma_find_delimiter_is(raw@, d as int);
    }
    if d < n {
        let ce = trim_end_bound(raw, 0, d);
        let te = trim_end_bound(raw, d + 1, n);
        let delimiter = if raw[d] == ';' {
            Delimiter::Semicolon
        } else {
            Delimiter::Hash
        };
        proof {
            assert(raw@.take(d as int) =~= raw@.subrange(0, d as int));
            assert(raw@.skip(d + 1) =~= raw@.subrange(d + 1, n as int));
        }
        Line {
            kind,
            content: Some(to_string(raw, 0, ce)),
            comment: Some(Comment { delimiter, text: to_string(raw, d + 1, te) }),
        }
    } else {
        let ce = trim_end_bound(raw, 0, n);
        Line { kind, content: Some(to_string(raw, 0, ce)), comment: None }
    }
}

/// Splits the raw text that `line.content` holds into content and comment.
/// A line whose kind is `Comment` already is taken as a comment as a
/// whole.
pub fn parse_comments(line: &mut Line)
    requires
        old(line).content is Some,
    ensures
        final(line)@ == split_comment(
            old(line).kind is Comment,
            old(line).kind@,
            old(line).content.unwrap()@,
        ),
{
    let raw = match &line.content {
        Some(c) => to_chars(c.as_str()),
        None => Vec::new(),
    };
    let forced = match &line.kind {
        LineKind::Comment => true,
        _ => false,
    };
    let mut kind = LineKind::Undetermined;
    std::mem::swap(&mut kind, &mut line.kind);
    *line = split_chars(forced, kind, &raw);
}

/// The fields of the content of a line; none if it has no content.
pub fn tokenize(line: &Line) -> (r: Vec<String>)
    ensures
        views_of(r@) == match line.content {
            Some(c) => tokens(c@),
            None => Seq::empty(),
        },
{
    match &line.content {
        Some(c) => {
            let v = to_chars(c.as_str());
            let fields = tokenize_chars(&v);
            fields_from_chars(&fields)
        },
        None => {
            let r: Vec<String> = Vec::new();
            assert(views_of(r@) =~= Seq::<Seq<char>>::empty());
            r
        },
    }
}

// ---------------------------------------------------------------------
// Line classifier
// ---------------------------------------------------------------------
/// The kind of a line that is no comment, by its content: `Other` if the
/// content has no field; else `Date` if it begins with a digit, `Posting`
/// with its fields if it begins with a space or a tab, `Other` otherwise.
pub open spec fn kind_of(content: Seq<char>) -> KindView {
    let ts = tokens(content);
    if ts.len() == 0 || content.len() == 0 {
        KindView::Other
    } else if is_digit(content[0]) {
        KindView::Date
    } else if content[0] == ' ' || content[0] == '\t' {
        KindView::Posting(ts)
    } else {
        KindView::Other
    }
}

/// The record that a raw line is classified as; `forced` says that the
/// line lies in a comment block.
pub open spec fn classify_text(forced: bool, raw: Seq<char>) -> LineView {
    let l = split_comment(forced, KindView::Undetermined, raw);
    match l.content {
        Some(c) => LineView { kind: kind_of(c), content: l.content, comment: l.comment },
        None => l,
    }
}

/// The classifier establishes the invariant of a line, and leaves no kind
/// undetermined.
pub proof fn lemma_classify_text_wf(forced: bool, raw: Seq<char>)
    ensures
        classify_text(forced, raw).wf(),
        !(classify_text(forced, raw).kind is Undetermined),
        forced ==> classify_text(forced, raw).kind is Comment,
{
}

/// The record that the line `raw` is classified as; `forced` says that the
/// line lies in a comment block.
pub(crate) fn classify_chars(forced: bool, raw: &Vec<char>) -> (line: Line)
    ensures
        line@ == classify_text(forced, raw@),
{
    let mut line = split_chars(forced, LineKind::Undetermined, raw);
    let kind = match &line.content {
        None => { return line; },
        Some(c) => {
            let v = to_chars(c.as_str());
            let fields = tokenize_chars(&v);
            if fields.len() == 0 || v.len() == 0 {
                LineKind::Other
            } else if is_ascii_digit(v[0]) {
                LineKind::Date
            } else if v[0] == ' ' || v[0] == '\t' {
                LineKind::Posting(fields_from_chars(&fields))
            } else {
                LineKind::Other
            }
        },
    };
    line.kind = kind;
    line
}

/// Classifies the raw line that `line.content` holds: splits off its
/// comment and gives it its kind. A line whose kind is `Comment` already
/// lies in a comment block, and stays a comment whatever it holds.
pub fn assign_kind(line: Line) -> (r: Line)
    requires
        line.content is Some,
    ensures
        r@ == classify_text(line.kind is Comment, line.content.unwrap()@),
        r.wf(),
{
    let forced = match &line.kind {
        LineKind::Comment => true,
        _ => false,
    };
    let raw = match &line.content {
        Some(c) => to_chars(c.as_str()),
        None => Vec::new(),
    };
    proof {
        lemma_classify_text_wf(forced, raw@);
    }
    classify_chars(forced, &raw)
}

// ---------------------------------------------------------------------
// Comment blocks
// ---------------------------------------------------------------------
/// An upper-case ASCII letter in lower case; any other character as it is.
pub open spec fn lower(c: char) -> char {
    if 'A' <= c && c <= 'Z' {
        ((c as u8 + 32) as u8) as char
    } else {
        c
    }
}

/// `s` is the word `w` (given in lower case), whatever the case of its
/// letters.
pub open spec fn same_word(s: Seq<char>, w: Seq<char>) -> bool {
    s.len() == w.len() && forall|i: int| 0 <= i < s.len() ==> lower(#[trigger] s[i]) == w[i]
}

/// The word that opens a comment block.
pub open spec fn word_comment() -> Seq<char> {
    seq!['c', 'o', 'm', 'm', 'e', 'n', 't']
}

/// The words that close a comment block.
pub open spec fn word_end_comment() -> Seq<char> {
    seq!['e', 'n', 'd', ' ', 'c', 'o', 'm', 'm', 'e', 'n', 't']
}

/// The line that opens a comment block.
pub open spec fn opens_block(raw: Seq<char>) -> bool {
    same_word(trim(raw), word_comment())
}

/// The line that closes a comment block.
pub open spec fn closes_block(raw: Seq<char>) -> bool {
    same_word(trim(raw), word_end_comment())
}

/// One step of the classifier. `block` is the number of the line that
/// opened the comment block that is open before this line, if one is;
/// `number` is the number of this line. The result is the state after the
/// line, and the line's record.
///
/// A line in an open block is a comment. `comment` opens a block (and is a
/// comment itself); `end comment` closes the open block, and is an error
/// where none is open.
pub open spec fn classify_step(block: Option<nat>, number: nat, raw: Seq<char>) -> Result<
    (Option<nat>, LineView),
    ErrorView,
> {
    if closes_block(raw) && block is None {
        Err(ErrorView::UnexpectedEndComment(number))
    } else {
        Ok((next_block(block, number, raw), classify_text(block is Some || opens_block(raw), raw)))
    }
}

/// The state of the comment block after the line `raw`, whose number is
/// `number`, where it was `block` before it.
pub open spec fn next_block(block: Option<nat>, number: nat, raw: Seq<char>) -> Option<nat> {
    if opens_block(raw) {
        if block is None {
            Some(number)
        } else {
            block
        }
    } else if closes_block(raw) {
        None
    } else {
        block
    }
}

/// The state of the comment block after the first `k` of `lines`, the
/// first of which has the number `number`, where it was `block` before
/// them.
pub open spec fn block_after(lines: Seq<Seq<char>>, block: Option<nat>, number: nat, k: nat) -> Option<
    nat,
>
    decreases k,
{
    if k == 0 || lines.len() == 0 {
        block
    } else {
        block_after(
            lines.drop_first(),
            next_block(block, number, lines[0]),
            number + 1,
            (k - 1) as nat,
        )
    }
}

/// `lines` without the blank lines that it begins with.
pub open spec fn skip_blank(lines: Seq<Seq<char>>) -> Seq<Seq<char>>
    decreases lines.len(),
{
    if lines.len() > 0 && is_blank(lines[0]) {
        skip_blank(lines.drop_first())
    } else {
        lines
    }
}

/// The records of `lines`, the first of which has the number `number`,
/// read with `block` open. A block that is still open after the last line
/// is an error, reported with the line that opened it.
pub open spec fn classify_from(lines: Seq<Seq<char>>, block: Option<nat>, number: nat) -> Result<
    Seq<LineView>,
    ErrorView,
>
    decreases lines.len(),
{
    if lines.len() == 0 {
        match block {
            Some(n) => Err(ErrorView::UnterminatedCommentBlock(n)),
            None => Ok(Seq::empty()),
        }
    } else {
        match classify_step(block, number, lines[0]) {
            Err(e) => Err(e),
            Ok((next, line)) => match classify_from(lines.drop_first(), next, number + 1) {
                Err(e) => Err(e),
                Ok(rest) => Ok(seq![line] + rest),
            },
        }
    }
}

/// The lines of a journal that are classified: all but the blank lines at
/// its beginning. They are numbered from 1.
pub open spec fn journal_lines(input: Seq<char>) -> Seq<Seq<char>> {
    skip_blank(split_lines(input))
}

/// Whether the line `k` of `lines` lies in a comment block, or opens one:
/// whether it is read as a comment whatever it holds.
pub open spec fn in_block(lines: Seq<Seq<char>>, k: int) -> bool {
    block_after(lines, None, 1, k as nat) is Some || opens_block(lines[k])
}

/// The records of a journal.
pub open spec fn classify_spec(input: Seq<char>) -> Result<Seq<LineView>, ErrorView> {
    classify_from(journal_lines(input), None, 1)
}

/// An upper-case ASCII letter in lower case; any other character as it is.
fn lower_char(c: char) -> (r: char)
    ensures
        r == lower(c),
{
    if 'A' <= c && c <= 'Z' {
        let n: u8 = c as u8;
        (n + 32) as char
    } else {
        c
    }
}

/// Whether `v[lo..hi]` is the word `w`, whatever the case of its letters.
fn is_word(v: &Vec<char>, lo: usize, hi: usize, w: &Vec<char>) -> (b: bool)
    requires
        lo <= hi <= v.len(),
    ensures
        b == same_word(v@.subrange(lo as int, hi as int), w@),
{
    let ghost s = v@.subrange(lo as int, hi as int);
    if hi - lo != w.len() {
        return false;
    }
    let mut i: usize = 0;
    while i < w.len()
        invariant
            lo <= hi <= v.len(),
            hi - lo == w.len(),
            i <= w.len(),
            s == v@.subrange(lo as int, hi as int),
            forall|j: int| 0 <= j < i ==> lower(#[trigger] s[j]) == w@[j],
        decreases w.len() - i,
    {
        assert(s[i as int] == v@[lo + i]);
        if lower_char(v[lo + i]) != w[i] {
            return false;
        }
        i += 1;
    }
    true
}

/// The word that opens a comment block.
fn comment_word() -> (w: Vec<char>)
    ensures
        w@ == word_comment(),
{
    let w = to_chars("comment");
    proof {
        reveal_strlit("comment");
        assert(w@ =~= word_comment());
    }
    w
}

/// The words that close a comment block.
fn end_comment_word() -> (w: Vec<char>)
    ensures
        w@ == word_end_comment(),
{
    let w = to_chars("end comment");
    proof {
        reveal_strlit("end comment");
        assert(w@ =~= word_end_comment());
    }
    w
}

/// The state of the comment block as the contracts speak of it.
pub open spec fn block_view(block: Option<usize>) -> Option<nat> {
    match block {
        Some(n) => Some(n as nat),
        None => None,
    }
}

/// One step of the classifier, on the characters of a line.
fn step_chars(block: Option<usize>, number: usize, raw: &Vec<char>) -> (r: Result<
    (Option<usize>, Line),
    FormatError,
>)
    ensures
        match classify_step(block_view(block), number as nat, raw@) {
            Ok((next, line)) => r is Ok && block_view(r.unwrap().0) == next && r.unwrap().1@
                == line,
            Err(e) => r is Err && r.unwrap_err()@ == e,
        },
{
    let (b, e) = trim_bounds(raw, 0, raw.len());
    proof {
        assert(raw@.subrange(0, raw@.len() as int) =~= raw@);
    }
    let opens = is_word(raw, b, e, &comment_word());
    let closes = is_word(raw, b, e, &end_comment_word());
    if closes && block.is_none() {
        return Err(FormatError::UnexpectedEndComment(number));
    }
    let next = if opens {
        if block.is_none() {
            Some(number)
        } else {
            block
        }
    } else if closes {
        None
    } else {
        block
    };
    let line = classify_chars(block.is_some() || opens, raw);
    Ok((next, line))
}

/// One step of the classifier: the record of the line `raw`, whose number
/// is `number`, and the state of the comment block after it. `block` holds
/// the number of the line that opened the block that is open before this
/// line, if one is.
///
/// Inside an open block every line is a comment, whatever it holds.
pub fn classify_line(block: Option<usize>, number: usize, raw: &str) -> (r: Result<
    (Option<usize>, Line),
    FormatError,
>)
    ensures
        match classify_step(block_view(block), number as nat, raw@) {
            Ok((next, line)) => r is Ok && block_view(r.unwrap().0) == next && r.unwrap().1@
                == line,
            Err(e) => r is Err && r.unwrap_err()@ == e,
        },
        r matches Ok(p) ==> p.1.wf() && !(p.1.kind is Undetermined),
        r matches Ok(p) ==> (block is Some ==> p.1.kind is Comment),
{
    let v = to_chars(raw);
    proof {
        lemma_classify_text_wf(block is Some || opens_block(raw@), raw@);
    }
    step_chars(block, number, &v)
}

/// `acc` followed by what `rest` holds, or the error that `rest` is.
pub open spec fn prepend_lines(acc: Seq<LineView>, rest: Result<Seq<LineView>, ErrorView>) -> Result<
    Seq<LineView>,
    ErrorView,
> {
    match rest {
        Ok(r) => Ok(acc + r),
        Err(e) => Err(e),
    }
}

/// Reads a journal into its records: cuts it into lines, leaves out the
/// blank lines at its beginning, and classifies the others in turn.
///
/// Fails with `UnexpectedEndComment` at the first `end comment` outside a
/// comment block, and with `UnterminatedCommentBlock` if a block is open
/// at the end.
pub fn classify(input: &str) -> (r: Result<Vec<Line>, FormatError>)
    ensures
        match classify_spec(input@) {
            Ok(ls) => r is Ok && line_views(r.unwrap()@) == ls,
            Err(e) => r is Err && r.unwrap_err()@ == e,
        },
        r matches Ok(ls) ==> forall|i: int|
            0 <= i < ls.len() ==> (#[trigger] ls[i]).wf() && !(ls[i].kind is Undetermined),
        r matches Ok(ls) ==> ls.len() == journal_lines(input@).len() && forall|i: int|
            0 <= i < ls.len() && in_block(journal_lines(input@), i) ==> (#[trigger] ls[i]).kind is Comment,
{
    let text = to_chars(input);
    let lines = lines_of(&text);
    let n = lines.len();
    let mut first: usize = 0;
    proof {
        assert(texts(lines@).skip(0) =~= texts(lines@));
    }
    while first < n && is_blank_line(&lines[first])
        invariant
            first <= n == lines.len(),
            skip_blank(texts(lines@)) == skip_blank(texts(lines@).skip(first as int)),
        decreases n - first,
    {
        proof {
            let rest = texts(lines@).skip(first as int);
            assert(rest[0] == lines@[first as int]@);
            assert(rest.drop_first() =~= texts(lines@).skip(first + 1));
        }
        first += 1;
    }
    let ghost all = texts(lines@).skip(first as int);
    proof {
        if first < n {
            assert(all[0] == lines@[first as int]@);
        }
        assert(skip_blank(all) == all);
        assert(journal_lines(input@) == all);
    }
    let mut out: Vec<Line> = Vec::new();
    let mut block: Option<usize> = None;
    let mut i: usize = first;
    proof {
        assert(all.skip(0) =~= all);
        assert(line_views(out@) =~= Seq::<LineView>::empty());
        assert(prepend_lines(line_views(out@), classify_from(all, None, 1)) =~= classify_from(
            all,
            None,
            1,
        )) by {
            match classify_from(all, None, 1) {
                Ok(r) => {
                    assert(Seq::<LineView>::empty() + r =~= r);
                },
                Err(e) => {},
            }
        }
    }
    while i < n
        invariant
            first <= i <= n == lines.len(),
            all == texts(lines@).skip(first as int),
            out.len() == i - first,
            classify_spec(input@) == prepend_lines(
                line_views(out@),
                classify_from(all.skip(i - first), block_view(block), (i - first + 1) as nat),
            ),
            forall|j: int|
                0 <= j < out.len() ==> (#[trigger] out@[j]).wf() && !(out@[j].kind is Undetermined),
        decreases n - i,
    {
        let ghost rest = all.skip(i - first);
        let ghost before = line_views(out@);
        proof {
            assert(rest[0] == lines@[i as int]@);
            assert(rest.drop_first() =~= all.skip(i - first + 1));
            lemma_classify_text_wf(block is Some || opens_block(rest[0]), rest[0]);
        }
        match step_chars(block, i - first + 1, &lines[i]) {
            Err(e) => {
                return Err(e);
            },
            Ok((next, line)) => {
                proof {
                    let tail = classify_from(
                        all.skip(i - first + 1),
                        block_view(next),
                        (i - first + 2) as nat,
                    );
                    assert(line_views(out@.push(line)) =~= before + seq![line@]);
                    match tail {
                        Ok(r) => {
                            assert(before + (seq![line@] + r) =~= (before + seq![line@]) + r);
                        },
                        Err(e) => {},
                    }
                }
                out.push(line);
                block = next;
            },
        }
        i += 1;
    }
    proof {
        assert(all.skip(n - first).len() == 0);
        assert(line_views(out@) + Seq::<LineView>::empty() =~= line_views(out@));
    }
    match block {
        Some(opened) => Err(FormatError::UnterminatedCommentBlock(opened)),
        None => {
            proof {
                lemma_classify_from_ok(all, None, 1);
                assert forall|i: int| 0 <= i < out.len() && in_block(all, i) implies (
                #[trigger] out@[i]).kind is Comment by {
                    assert(line_views(out@)[i] == record_at(all, None, 1, i));
                    assert(out@[i]@.kind is Comment);
                }
            }
            Ok(out)
        },
    }
}

// ---------------------------------------------------------------------
// What the classifier guarantees
// ---------------------------------------------------------------------
/// The record of the line `k` of `lines`, read with `block` open before
/// the first of them.
pub open spec fn record_at(lines: Seq<Seq<char>>, block: Option<nat>, number: nat, k: int) -> LineView {
    classify_text(
        block_after(lines, block, number, k as nat) is Some || opens_block(lines[k]),
        lines[k],
    )
}

/// Where the classifier succeeds there is a record for every line, each
/// the record of its line in the state that the lines before it left; no
/// line closes a block that is not open; and no block is open at the end.
pub proof fn lemma_classify_from_ok(lines: Seq<Seq<char>>, block: Option<nat>, number: nat)
    requires
        classify_from(lines, block, number) is Ok,
    ensures
        classify_from(lines, block, number)->Ok_0.len() == lines.len(),
        forall|k: int|
            0 <= k < lines.len() ==> (#[trigger] classify_from(lines, block, number)->Ok_0[k])
                == record_at(lines, block, number, k),
        forall|k: int|
            0 <= k < lines.len() ==> !(closes_block(#[trigger] lines[k]) && block_after(
                lines,
                block,
                number,
                k as nat,
            ) is None),
        block_after(lines, block, number, lines.len()) is None,
    decreases lines.len(),
{
    if lines.len() > 0 {
        let next = next_block(block, number, lines[0]);
        let rest = lines.drop_first();
        lemma_classify_from_ok(rest, next, number + 1);
        let all = classify_from(lines, block, number)->Ok_0;
        let tail = classify_from(rest, next, number + 1)->Ok_0;
        assert forall|k: int| 0 <= k < lines.len() implies (#[trigger] all[k]) == record_at(
            lines,
            block,
            number,
            k,
        ) by {
            if k > 0 {
                assert(all[k] == tail[k - 1]);
                assert(rest[k - 1] == lines[k]);
            }
        }
        assert forall|k: int| 0 <= k < lines.len() implies !(closes_block(#[trigger] lines[k])
            && block_after(lines, block, number, k as nat) is None) by {
            if k > 0 {
                assert(rest[k - 1] == lines[k]);
            }
        }
    }
}

/// Where no line closes a block that is not open, and no block is open at
/// the end, the classifier succeeds.
pub proof fn lemma_classify_from_build(lines: Seq<Seq<char>>, block: Option<nat>, number: nat)
    requires
        forall|k: int|
            0 <= k < lines.len() ==> !(closes_block(#[trigger] lines[k]) && block_after(
                lines,
                block,
                number,
                k as nat,
            ) is None),
        block_after(lines, block, number, lines.len()) is None,
    ensures
        classify_from(lines, block, number) is Ok,
    decreases lines.len(),
{
    if lines.len() > 0 {
        let next = next_block(block, number, lines[0]);
        let rest = lines.drop_first();
        assert(!(closes_block(lines[0]) && block_after(lines, block, number, 0) is None));
        assert forall|k: int| 0 <= k < rest.len() implies !(closes_block(#[trigger] rest[k])
            && block_after(rest, next, number + 1, k as nat) is None) by {
            assert(rest[k] == lines[k + 1]);
            assert(!(closes_block(lines[k + 1]) && block_after(
                lines,
                block,
                number,
                (k + 1) as nat,
            ) is None));
        }
        lemma_classify_from_build(rest, next, number + 1);
    }
}

/// The comment block: between the line that opens a block and the line
/// that closes it, every line is a comment, whatever it holds. So are the
/// two lines themselves.
pub proof fn lemma_block_lines_are_comments(lines: Seq<Seq<char>>, k: int)
    requires
        classify_from(lines, None, 1) is Ok,
        0 <= k < lines.len(),
        in_block(lines, k),
    ensures
        classify_from(lines, None, 1)->Ok_0[k].kind is Comment,
        classify_from(lines, None, 1)->Ok_0[k].content is None,
        classify_from(lines, None, 1)->Ok_0[k].comment == Some(
            CommentView { delimiter: Delimiter::Bare, text: trim_end(lines[k]) },
        ),
{
    lemma_classify_from_ok(lines, None, 1);
}

} // verus!
