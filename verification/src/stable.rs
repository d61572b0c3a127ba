//! A line that the layout has written reads back as the line that was
//! written: the facts, line by line, that make the canonical form of a
//! journal a fixed point of the formatter.

use vstd::prelude::*;
use crate::text::{
    is_ws,
    is_digit,
    is_blank,
    trim,
    trim_end,
    trim_start,
    lemma_trim_is,
    lemma_trim_bounds,
    lemma_trim_end_props,
    lemma_trim_end_fixed,
    lemma_trim_end_idem,
    lemma_trim_end_blank,
    lemma_trim_start_props,
};
use crate::types::{CommentView, ErrorView, KindView, LineView, comment_text, delimiter_text};
use crate::amount::{
    CharClass,
    class_of,
    find_class,
    run_end,
    parse_amount_spec,
    render_amount_spec,
    render_number,
    padded_digits,
    magnitude,
    lemma_find_class_props,
    lemma_run_end_props,
    lemma_render_number_props,
    lemma_padded_digits_props,
    lemma_parse_wf,
    lemma_parse_render_roundtrip,
};
use crate::classify::{
    tokens,
    spaces,
    account_field,
    indent_width,
    is_delimiter,
    find_delimiter,
    is_comment_line,
    split_comment,
    kind_of,
    classify_text,
    lower,
    same_word,
    word_comment,
    word_end_comment,
    opens_block,
    closes_block,
    lemma_find_delimiter_props,
    lemma_find_delimiter_is,
};
use crate::layout::{
    WidthsView,
    amount_text,
    left_pad,
    right_pad,
    posting_text,
    comment_tail,
    content_text,
    render_line,
    measure_line,
};
use crate::fields::{
    free_of,
    gapless,
    is_field,
    lemma_trim_field,
    lemma_tokens_are_fields,
    lemma_token_chars,
    lemma_tokens_of_posting,
    lemma_single_token_trim,
};

verus! {

/// A text without a comment delimiter.
pub open spec fn plain(s: Seq<char>) -> bool {
    free_of(s, ';') && free_of(s, '#')
}

// ---------------------------------------------------------------------
// Amounts
// ---------------------------------------------------------------------
/// A rendered number ends with a digit.
pub proof fn lemma_number_ends_with_digit(m: int, p: nat)
    ensures
        render_number(m, p).len() > 0,
        is_digit(render_number(m, p).last()),
{
    let ds = padded_digits(magnitude(m), p);
    lemma_padded_digits_props(magnitude(m), p);
    assert(is_digit(ds[ds.len() - 1]));
    let r = render_number(m, p);
    assert(r.last() == ds.last());
}

/// The characters of a rendered number are no whitespace, no line feed
/// and no comment delimiter.
pub proof fn lemma_number_chars(m: int, p: nat)
    requires
        i64::MIN <= m <= i64::MAX,
    ensures
        forall|i: int|
            0 <= i < render_number(m, p).len() ==> {
                let c = #[trigger] render_number(m, p)[i];
                !is_ws(c) && c != '\n' && !is_delimiter(c)
            },
{
    let num = render_number(m, p);
    lemma_render_number_props(m, p);
    assert forall|i: int| 0 <= i < num.len() implies {
        let c = #[trigger] num[i];
        !is_ws(c) && c != '\n' && !is_delimiter(c)
    } by {
        assert(class_of(num[i]) == CharClass::Number);
    }
}

/// Where the currency symbol of a trimmed token stands, and what it is
/// made of: a symbol that is prepended begins the token, one that is
/// appended ends it; it holds no space, and no character that the token
/// does not hold.
pub proof fn lemma_symbol_place(t: Seq<char>)
    requires
        t.len() > 0,
        !is_ws(t.first()),
        !is_ws(t.last()),
        parse_amount_spec(t) is Some,
        parse_amount_spec(t)->Some_0.currency is Some,
    ensures
        ({
            let c = parse_amount_spec(t)->Some_0.currency->Some_0;
            &&& c.symbol.len() > 0
            &&& free_of(c.symbol, ' ')
            &&& forall|ch: char| free_of(t, ch) ==> #[trigger] free_of(c.symbol, ch)
            &&& c.prepend ==> c.symbol.first() == t.first()
            &&& !c.prepend ==> c.symbol.last() == t.last()
        }),
{
    let c = parse_amount_spec(t)->Some_0.currency->Some_0;
    let number = CharClass::Number;
    let symbol = CharClass::Symbol;
    let ns = find_class(t, 0, number);
    let ne = run_end(t, ns, number);
    let ss = find_class(t, 0, symbol);
    let se = run_end(t, ss, symbol);
    lemma_find_class_props(t, 0, number);
    lemma_run_end_props(t, ns, number);
    lemma_find_class_props(t, 0, symbol);
    lemma_run_end_props(t, ss, symbol);
    lemma_find_class_props(t, ne, number);
    lemma_find_class_props(t, se, symbol);
    let sym = c.symbol;
    assert(sym == t.subrange(ss, se));
    assert forall|i: int| 0 <= i < sym.len() implies #[trigger] sym[i] != ' ' by {
        assert(sym[i] == t[ss + i]);
        assert(class_of(t[ss + i]) == symbol);
    }
    assert forall|ch: char| free_of(t, ch) implies #[trigger] free_of(sym, ch) by {
        assert forall|i: int| 0 <= i < sym.len() implies #[trigger] sym[i] != ch by {
            assert(sym[i] == t[ss + i]);
        }
    }
    if c.prepend {
        assert(ss == 0) by {
            assert(class_of(t[0]) != CharClass::Space);
            if class_of(t[0]) == number {
                assert(ns == 0);
            }
        }
        assert(sym[0] == t[0]);
    } else {
        assert(ss >= ne) by {
            if ss < ne {
                assert(class_of(t[ss]) == number);
            }
        }
        assert(se == t.len()) by {
            if se < t.len() {
                let last = t.len() - 1;
                assert(class_of(t[last]) != symbol);
                assert(class_of(t[last]) != number);
            }
        }
        assert(sym.last() == t.last());
    }
}

/// Two texts without a space, joined by one space or none, are a field
/// if the first does not begin with whitespace and the second does not
/// end with it.
pub proof fn lemma_joined_field(a: Seq<char>, gap: Seq<char>, b: Seq<char>)
    requires
        a.len() > 0,
        b.len() > 0,
        gap.len() == 0 || gap == seq![' '],
        free_of(a, ' '),
        free_of(b, ' '),
        !is_ws(a.first()),
        !is_ws(b.last()),
    ensures
        is_field(a + gap + b),
        forall|ch: char|
            ch != ' ' && free_of(a, ch) && free_of(b, ch) ==> #[trigger] free_of(a + gap + b, ch),
        forall|j: int| 0 <= j < a.len() ==> (a + gap + b)[j] == #[trigger] a[j],
        forall|j: int| 0 <= j < b.len() ==> (a + gap + b)[a.len() + gap.len() + j] == #[trigger] b[j],
{
    let s = a + gap + b;
    let n = a.len() as int;
    let g = gap.len() as int;
    assert forall|i: int| 0 <= i < s.len() implies #[trigger] s[i] == (if i < n {
        a[i]
    } else if i < n + g {
        ' '
    } else {
        b[i - n - g]
    }) by {}
    assert(s.first() == a.first());
    assert(s.last() == b.last());
    assert forall|i: int| 0 <= i && i + 1 < s.len() implies !(#[trigger] s[i] == ' ' && s[i + 1]
        == ' ') by {
        if i < n {
            assert(s[i] == a[i]);
        } else if i < n + g {
            assert(s[i + 1] == b[0]);
        } else {
            assert(s[i] == b[i - n - g]);
        }
    }
    assert forall|ch: char| ch != ' ' && free_of(a, ch) && free_of(b, ch) implies #[trigger] free_of(
        s,
        ch,
    ) by {
        assert forall|i: int| 0 <= i < s.len() implies #[trigger] s[i] != ch by {
            if i < n {
                assert(s[i] == a[i]);
            } else if i >= n + g {
                assert(s[i] == b[i - n - g]);
            }
        }
    }
}

/// The canonical form of the amount of a trimmed token is a field. It
/// holds a digit, and no line feed or comment delimiter that the token
/// does not hold. And it reads back as the amount of the token.
pub proof fn lemma_rendered_amount(t: Seq<char>)
    requires
        t.len() > 0,
        !is_ws(t.first()),
        !is_ws(t.last()),
        parse_amount_spec(t) is Some,
    ensures
        is_field(render_amount_spec(parse_amount_spec(t)->Some_0)),
        exists|i: int|
            0 <= i < render_amount_spec(parse_amount_spec(t)->Some_0).len() && is_digit(
                #[trigger] render_amount_spec(parse_amount_spec(t)->Some_0)[i],
            ),
        free_of(t, '\n') ==> free_of(render_amount_spec(parse_amount_spec(t)->Some_0), '\n'),
        plain(t) ==> plain(render_amount_spec(parse_amount_spec(t)->Some_0)),
        parse_amount_spec(render_amount_spec(parse_amount_spec(t)->Some_0)) == parse_amount_spec(t),
{
    let a = parse_amount_spec(t)->Some_0;
    let amt = render_amount_spec(a);
    lemma_parse_wf(t);
    lemma_parse_render_roundtrip(a);
    let num = render_number(a.mantissa, a.precision);
    lemma_render_number_props(a.mantissa, a.precision);
    lemma_number_ends_with_digit(a.mantissa, a.precision);
    lemma_number_chars(a.mantissa, a.precision);
    let n = num.len() as int;
    assert(free_of(num, ' ') && free_of(num, '\n') && free_of(num, ';') && free_of(num, '#')) by {
        assert forall|i: int| 0 <= i < n implies #[trigger] num[i] != ' ' && num[i] != '\n'
            && num[i] != ';' && num[i] != '#' by {
            assert(!is_ws(num[i]));
        }
    }
    assert(!is_ws(num.first()) && !is_ws(num.last())) by {
        assert(!is_ws(num[0]));
        assert(!is_ws(num[n - 1]));
    }
    match a.currency {
        None => {
            assert(amt == num);
            assert forall|i: int| 0 <= i && i + 1 < num.len() implies !(#[trigger] num[i] == ' '
                && num[i + 1] == ' ') by {}
            assert(is_digit(amt[n - 1]));
        },
        Some(c) => {
            lemma_symbol_place(t);
            let sym = c.symbol;
            if c.prepend {
                let gap = if a.mantissa < 0 {
                    Seq::<char>::empty()
                } else {
                    seq![' ']
                };
                assert(amt =~= sym + gap + num);
                lemma_joined_field(sym, gap, num);
                assert(amt[sym.len() + gap.len() + n - 1] == num[n - 1]);
                assert(is_digit(amt[sym.len() + gap.len() + n - 1]));
            } else {
                let gap = Seq::<char>::empty();
                assert(amt =~= num + gap + sym);
                lemma_joined_field(num, gap, sym);
                assert(amt[n - 1] == num[n - 1]);
                assert(is_digit(amt[n - 1]));
            }
        },
    }
}

// ---------------------------------------------------------------------
// The words that open and close a comment block
// ---------------------------------------------------------------------
/// The characters that the words `comment` and `end comment` are made of.
pub open spec fn is_word_char(c: char) -> bool {
    c == 'c' || c == 'o' || c == 'm' || c == 'e' || c == 'n' || c == 't' || c == 'd' || c == ' '
}

/// A line that holds a character which is neither whitespace nor a letter
/// of the two words neither opens nor closes a comment block.
pub proof fn lemma_foreign_char(s: Seq<char>, i: int)
    requires
        0 <= i < s.len(),
        !is_ws(s[i]),
        !is_word_char(lower(s[i])),
    ensures
        !opens_block(s),
        !closes_block(s),
{
    let r = lemma_trim_bounds(s);
    let t = trim(s);
    assert(r.0 <= i < r.1);
    let j = i - r.0;
    assert(t[j] == s[i]);
    let w1 = word_comment();
    let w2 = word_end_comment();
    assert forall|k: int| 0 <= k < w1.len() implies is_word_char(#[trigger] w1[k]) by {
        assert(w1.len() == 7);
    }
    assert forall|k: int| 0 <= k < w2.len() implies is_word_char(#[trigger] w2[k]) by {
        assert(w2.len() == 11);
    }
    if same_word(t, w1) {
        assert(lower(t[j]) == w1[j]);
    }
    if same_word(t, w2) {
        assert(lower(t[j]) == w2[j]);
    }
}

/// Trimming at the end first changes nothing of what trimming leaves.
pub proof fn lemma_trim_of_trim_end(s: Seq<char>)
    ensures
        trim(trim_end(s)) == trim(s),
{
    lemma_trim_end_idem(s);
}

// ---------------------------------------------------------------------
// Reading a written line
// ---------------------------------------------------------------------
/// What the comment splitter leaves of a line that is no comment as a
/// whole: content without a delimiter and without trailing whitespace; a
/// comment with a literal marker and without trailing whitespace, behind
/// content that is not blank.
pub proof fn lemma_split_props(raw: Seq<char>)
    requires
        !is_comment_line(raw),
    ensures
        ({
            let l = split_comment(false, KindView::Undetermined, raw);
            &&& l.content is Some
            &&& plain(l.content->Some_0)
            &&& trim_end(l.content->Some_0) == l.content->Some_0
            &&& free_of(raw, '\n') ==> free_of(l.content->Some_0, '\n')
            &&& l.comment is None ==> l.content->Some_0 == trim_end(raw)
            &&& l.comment matches Some(c) ==> {
                &&& !(c.delimiter is Bare)
                &&& trim_end(c.text) == c.text
                &&& !is_blank(l.content->Some_0)
                &&& free_of(raw, '\n') ==> free_of(c.text, '\n')
            }
        }),
{
    let d = find_delimiter(raw);
    lemma_find_delimiter_props(raw);
    let head = raw.take(d);
    let c = trim_end(head);
    lemma_trim_end_props(head);
    lemma_trim_end_idem(head);
    if d == raw.len() {
        assert(head =~= raw);
    }
    assert forall|i: int| 0 <= i < c.len() implies (#[trigger] c[i]) == raw[i] by {
        assert(c[i] == head[i]);
    }
    assert(plain(c));
    if d < raw.len() {
        let rest = raw.skip(d + 1);
        let text = trim_end(rest);
        lemma_trim_end_props(rest);
        lemma_trim_end_idem(rest);
        assert forall|i: int| 0 <= i < text.len() implies (#[trigger] text[i]) == raw[d + 1 + i] by {
            assert(text[i] == rest[i]);
        }
        // the first character that is no whitespace stands before the
        // delimiter, or the line would be a comment as a whole
        lemma_trim_start_props(raw);
        let k = raw.len() - trim_start(raw).len();
        assert(k <= d) by {
            if d < k {
                assert(is_ws(raw[d]));
            }
        }
        assert(trim_start(raw).len() > 0);
        assert(trim_start(raw)[0] == raw[k]);
        assert(k < d);
        assert(!is_ws(head[k]));
        assert(c.len() > k) by {
            if c.len() <= k {
                assert(is_ws(head[k]));
            }
        }
        assert(!is_ws(c[k]));
    }
}

/// Reading a written line back. Where `c` is content without a delimiter,
/// and the comment of `l` has a literal marker, no trailing whitespace,
/// and stands behind content that is not blank: the line that is written
/// for `c` and that comment splits into `c`, trimmed at its end, and that
/// comment.
pub proof fn lemma_reread(c: Seq<char>, l: LineView, width: nat)
    requires
        plain(c),
        l.comment matches Some(x) ==> !(x.delimiter is Bare) && trim_end(x.text) == x.text
            && !is_blank(c),
    ensures
        ({
            let r = trim_end(right_pad(c, width) + comment_tail(l));
            &&& trim_end(r) == r
            &&& !is_comment_line(r)
            &&& split_comment(false, KindView::Undetermined, r) == (LineView {
                kind: KindView::Undetermined,
                content: Some(trim_end(c)),
                comment: l.comment,
            })
            &&& l.comment is None ==> r == trim_end(c)
            &&& l.comment is Some ==> exists|i: int|
                0 <= i < r.len() && is_delimiter(#[trigger] r[i])
            &&& free_of(c, '\n') && (l.comment matches Some(x) ==> free_of(x.text, '\n'))
                ==> free_of(r, '\n')
            &&& forall|i: int| 0 <= i < trim_end(c).len() ==> #[trigger] r[i] == c[i]
            &&& r.len() >= trim_end(c).len()
        }),
{
    let pad = right_pad(c, width);
    let fill = spaces((pad.len() - c.len()) as nat);
    assert(pad =~= c + fill);
    assert(is_blank(fill));
    let e = trim_end(c);
    lemma_trim_end_props(c);
    lemma_trim_end_idem(c);
    assert forall|i: int| 0 <= i < e.len() implies (#[trigger] e[i]) == c[i] by {}
    assert(plain(e));
    match l.comment {
        None => {
            assert(pad + comment_tail(l) =~= c + fill);
            lemma_trim_end_blank(c, fill);
            let r = e;
            lemma_trim_start_props(r);
            if trim_start(r).len() > 0 {
                let k = r.len() - trim_start(r).len();
                assert(trim_start(r)[0] == r[k]);
            }
            lemma_find_delimiter_is(r, r.len() as int);
            assert(r.take(r.len() as int) =~= r);
        },
        Some(x) => {
            let marker = delimiter_text(x.delimiter)[0];
            let tail = seq![' '] + comment_text(x);
            assert(comment_text(x) =~= seq![marker] + x.text);
            let r0 = pad + tail;
            assert(r0 =~= pad + seq![' '] + seq![marker] + x.text);
            let d0: int = pad.len() as int + 1;
            assert(r0[d0 as int] == marker);
            assert(!is_ws(marker));
            assert(r0.last() == if x.text.len() > 0 {
                x.text.last()
            } else {
                marker
            });
            lemma_trim_end_props(x.text);
            lemma_trim_end_fixed(r0);
            let r = r0;
            // the line does not begin with the marker
            let j = choose|j: int| 0 <= j < c.len() && !is_ws(#[trigger] c[j]);
            assert(r[j] == c[j]);
            lemma_trim_start_props(r);
            let k = r.len() - trim_start(r).len();
            assert(k <= j) by {
                if j < k {
                    assert(is_ws(r[j]));
                }
            }
            assert(trim_start(r)[0] == r[k]);
            assert(r[k] == c[k]);
            // it is cut at the marker
            assert forall|i: int| 0 <= i < d0 implies !is_delimiter(#[trigger] r[i]) by {
                if i < c.len() {
                    assert(r[i] == c[i]);
                } else if i < pad.len() {
                    assert(r[i] == fill[i - c.len()]);
                }
            }
            lemma_find_delimiter_is(r, d0 as int);
            assert(r.take(d0 as int) =~= c + (fill + seq![' ']));
            assert(is_blank(fill + seq![' ']));
            lemma_trim_end_blank(c, fill + seq![' ']);
            assert(r.skip(d0 + 1) =~= x.text);
            assert(is_delimiter(r[d0 as int]));
            assert forall|i: int| 0 <= i < e.len() implies #[trigger] r[i] == c[i] by {}
            if free_of(c, '\n') && free_of(x.text, '\n') {
                assert forall|i: int| 0 <= i < r.len() implies #[trigger] r[i] != '\n' by {
                    if i < c.len() {
                        assert(r[i] == c[i]);
                    } else if i < pad.len() {
                        assert(r[i] == fill[i - c.len()]);
                    } else if i > d0 {
                        assert(r[i] == x.text[i - d0 - 1]);
                    }
                }
            }
        },
    }
}

// ---------------------------------------------------------------------
// Stability of a line
// ---------------------------------------------------------------------
/// Two records that the layout does not tell apart: the same comment, and
/// either two postings with the same account and the same amount, or the
/// same kind and content.
pub open spec fn same_layout(a: LineView, b: LineView) -> bool {
    &&& a.comment == b.comment
    &&& match a.kind {
        KindView::Posting(fa) => {
            &&& b.kind is Posting
            &&& fa.len() > 0
            &&& b.kind->Posting_0.len() > 0
            &&& fa[0] == b.kind->Posting_0[0]
            &&& amount_text(fa) == amount_text(b.kind->Posting_0)
        },
        _ => a.kind == b.kind && a.content == b.content,
    }
}

/// Records that the layout does not tell apart are measured and written
/// alike.
pub proof fn lemma_same_layout(a: LineView, b: LineView, w: WidthsView)
    requires
        same_layout(a, b),
    ensures
        measure_line(a, w) == measure_line(b, w),
        render_line(a, w) == render_line(b, w),
{
}

/// What is claimed of a line `raw` that is read in the state `forced` and
/// written with the widths `w`: the line that is written opens and closes
/// a comment block where `raw` does; read in the same state, it gives a
/// record that the layout does not tell from that of `raw`; it has no
/// trailing whitespace, and no line feed if `raw` has none; and it is
/// empty only if `raw` is blank and counts for nothing in the widths.
pub open spec fn line_stable(forced: bool, raw: Seq<char>, w: WidthsView) -> bool {
    let l = classify_text(forced, raw);
    let r = render_line(l, w)->Ok_0;
    &&& opens_block(r) == opens_block(raw)
    &&& closes_block(r) == closes_block(raw)
    &&& same_layout(l, classify_text(forced, r))
    &&& trim_end(r) == r
    &&& free_of(raw, '\n') ==> free_of(r, '\n')
    &&& r.len() == 0 ==> is_blank(raw) && forall|v: WidthsView| measure_line(l, v) == Ok::<
        WidthsView,
        ErrorView,
    >(v)
    &&& r.len() == 0 ==> !opens_block(raw) && !closes_block(raw)
}

/// A line that is a comment as a whole is stable.
pub proof fn lemma_comment_line_stable(forced: bool, raw: Seq<char>, w: WidthsView)
    requires
        forced || is_comment_line(raw),
    ensures
        render_line(classify_text(forced, raw), w) is Ok,
        line_stable(forced, raw, w),
{
    let l = classify_text(forced, raw);
    let e = trim_end(raw);
    assert(comment_text(l.comment->Some_0) =~= e);
    let r = render_line(l, w)->Ok_0;
    assert(r == e);
    lemma_trim_end_idem(raw);
    lemma_trim_of_trim_end(raw);
    lemma_trim_end_props(raw);
    assert forall|i: int| 0 <= i < e.len() implies (#[trigger] e[i]) == raw[i] by {}
    if !forced {
        lemma_trim_start_props(raw);
        let k = raw.len() - trim_start(raw).len();
        assert(trim_start(raw)[0] == raw[k]);
        assert(!is_ws(raw[k]));
        assert(k < e.len());
        assert forall|i: int| 0 <= i < k implies is_ws(#[trigger] e[i]) by {
            assert(e[i] == raw[i]);
        }
        assert(e[k] == raw[k]);
        crate::text::lemma_trim_start_is(e, k);
        assert(e.skip(k)[0] == e[k]);
        assert(is_comment_line(e));
    }
    assert(classify_text(forced, r) == l);
    if r.len() == 0 {
        let _ = lemma_trim_bounds(raw);
        assert(trim(raw).len() == 0);
    }
}

/// A line that is neither a comment nor a posting is stable.
pub proof fn lemma_plain_line_stable(raw: Seq<char>, w: WidthsView)
    requires
        !is_comment_line(raw),
        !opens_block(raw),
        !closes_block(raw),
        !(classify_text(false, raw).kind is Posting),
    ensures
        render_line(classify_text(false, raw), w) is Ok,
        line_stable(false, raw, w),
{
    let l = classify_text(false, raw);
    lemma_split_props(raw);
    let c = l.content->Some_0;
    assert(content_text(l, w.account) == Ok::<Seq<char>, ErrorView>(c));
    let r = render_line(l, w)->Ok_0;
    lemma_reread(c, l, w.line);
    assert(classify_text(false, r) == l);
    match l.comment {
        Some(x) => {
            let i = choose|i: int| 0 <= i < r.len() && is_delimiter(#[trigger] r[i]);
            lemma_foreign_char(r, i);
        },
        None => {
            assert(r == c);
            assert(c == trim_end(raw));
            lemma_trim_of_trim_end(raw);
        },
    }
    if r.len() == 0 {
        assert(c.len() == 0);
        assert(is_blank(c));
        assert(l.comment is None);
        lemma_trim_end_props(raw);
        lemma_tokens_of_empty(c);
        assert(l.kind is Other);
        assert forall|v: WidthsView| measure_line(l, v) == Ok::<
            WidthsView,
            ErrorView,
        >(v) by {
            assert(measure_line(l, v)->Ok_0 =~= v);
        }
    }
}

/// An empty text has no field.
pub proof fn lemma_tokens_of_empty(c: Seq<char>)
    requires
        c.len() == 0,
    ensures
        tokens(c).len() == 0,
{
    assert(trim_end(c) =~= c);
    assert(trim(c) =~= c);
}

/// The account of a posting that the classifier has read is a field
/// without a delimiter, and without a line feed if the line has none.
/// Where it is the only field of a line without a comment, it is what
/// trimming leaves of the line.
pub proof fn lemma_posting_account(raw: Seq<char>)
    requires
        !is_comment_line(raw),
        classify_text(false, raw).kind is Posting,
    ensures
        ({
            let l = classify_text(false, raw);
            let ts = l.kind->Posting_0;
            &&& l.content is Some
            &&& ts == tokens(l.content->Some_0)
            &&& ts.len() > 0
            &&& is_field(ts[0])
            &&& plain(ts[0])
            &&& free_of(raw, '\n') ==> free_of(ts[0], '\n')
            &&& ts.len() == 1 && l.comment is None ==> trim(raw) == ts[0]
        }),
{
    let l = classify_text(false, raw);
    lemma_split_props(raw);
    let c = l.content->Some_0;
    let ts = l.kind->Posting_0;
    lemma_tokens_are_fields(c);
    assert(is_field(ts[0]));
    lemma_token_chars(c, 0, ';');
    lemma_token_chars(c, 0, '#');
    if free_of(raw, '\n') {
        lemma_token_chars(c, 0, '\n');
    }
    if ts.len() == 1 && l.comment is None {
        assert(c == trim_end(raw));
        lemma_trim_of_trim_end(raw);
        lemma_single_token_trim(c);
    }
}

/// The amount of a posting that the classifier has read, as it is
/// written: empty where the posting has no second field, and else a field
/// without a delimiter that holds a digit and reads back as the amount
/// that it was read as.
pub proof fn lemma_posting_amount(raw: Seq<char>)
    requires
        !is_comment_line(raw),
        classify_text(false, raw).kind is Posting,
        amount_text(classify_text(false, raw).kind->Posting_0) is Ok,
    ensures
        ({
            let ts = classify_text(false, raw).kind->Posting_0;
            let amt = amount_text(ts)->Ok_0;
            &&& ts.len() < 2 ==> amt.len() == 0
            &&& ts.len() >= 2 ==> {
                &&& is_field(amt)
                &&& plain(amt)
                &&& exists|j: int| 0 <= j < amt.len() && is_digit(#[trigger] amt[j])
                &&& parse_amount_spec(amt) == parse_amount_spec(ts[1])
            }
            &&& free_of(raw, '\n') ==> free_of(amt, '\n')
        }),
{
    let l = classify_text(false, raw);
    lemma_split_props(raw);
    let c = l.content->Some_0;
    let ts = l.kind->Posting_0;
    if ts.len() >= 2 {
        let f1 = ts[1];
        lemma_tokens_are_fields(c);
        assert(is_field(f1));
        lemma_token_chars(c, 1, ';');
        lemma_token_chars(c, 1, '#');
        if free_of(raw, '\n') {
            lemma_token_chars(c, 1, '\n');
        }
        lemma_rendered_amount(f1);
    }
}

/// The fields of a posting that the classifier has read: the account is a
/// field without a delimiter; the amount, as it is written, is empty where
/// the posting has no second field, and else a field without a delimiter
/// that holds a digit and reads back as the amount that it was read as.
pub proof fn lemma_posting_fields(raw: Seq<char>)
    requires
        !is_comment_line(raw),
        classify_text(false, raw).kind is Posting,
        amount_text(classify_text(false, raw).kind->Posting_0) is Ok,
    ensures
        ({
            let ts = classify_text(false, raw).kind->Posting_0;
            let amt = amount_text(ts)->Ok_0;
            &&& ts.len() > 0
            &&& ts == tokens(classify_text(false, raw).content->Some_0)
            &&& is_field(ts[0])
            &&& plain(ts[0])
            &&& free_of(raw, '\n') ==> free_of(ts[0], '\n') && free_of(amt, '\n')
            &&& ts.len() < 2 ==> amt.len() == 0
            &&& ts.len() < 2 && classify_text(false, raw).comment is None ==> trim(raw) == ts[0]
            &&& ts.len() >= 2 ==> {
                &&& is_field(amt)
                &&& plain(amt)
                &&& exists|j: int| 0 <= j < amt.len() && is_digit(#[trigger] amt[j])
                &&& amount_text(seq![ts[0], amt]) == amount_text(ts)
            }
        }),
{
    lemma_posting_account(raw);
    lemma_posting_amount(raw);
    let ts = classify_text(false, raw).kind->Posting_0;
    let amt = amount_text(ts)->Ok_0;
    if ts.len() >= 2 {
        assert(seq![ts[0], amt][1] == amt);
    }
}

/// The text of a posting as it is laid out, and what it reads back as.
/// The text is `k` spaces, two at least, the account, two spaces and the
/// amount. Read back, it is a posting of the account and, if it is there,
/// the amount.
pub proof fn lemma_laid_out_posting(f0: Seq<char>, amt: Seq<char>, account: nat) -> (k: nat)
    requires
        is_field(f0),
        plain(f0),
        amt.len() == 0 || (is_field(amt) && plain(amt)),
    ensures
        k >= 2,
        ({
            let p = left_pad(account_field(f0), account) + seq![' ', ' '] + amt;
            &&& p == spaces(k) + f0 + seq![' ', ' '] + amt
            &&& plain(p)
            &&& !is_blank(p)
            &&& free_of(f0, '\n') && free_of(amt, '\n') ==> free_of(p, '\n')
            &&& kind_of(trim_end(p)) == KindView::Posting(
                if amt.len() == 0 {
                    seq![f0]
                } else {
                    seq![f0, amt]
                },
            )
            &&& amt.len() > 0 ==> trim_end(p) == p
            &&& amt.len() == 0 ==> trim(trim_end(p)) == f0
        }),
{
    lemma_trim_field(f0);
    let af = account_field(f0);
    let indent = indent_width(f0);
    assert(af =~= spaces(indent) + f0);
    let fill: nat = if af.len() >= account {
        0
    } else {
        (account - af.len()) as nat
    };
    let k = fill + indent;
    let p = left_pad(af, account) + seq![' ', ' '] + amt;
    assert(left_pad(af, account) =~= spaces(k) + f0);
    assert(p =~= spaces(k) + f0 + seq![' ', ' '] + amt);
    assert forall|i: int| 0 <= i < p.len() implies #[trigger] p[i] == (if i < k {
        ' '
    } else if i < k + f0.len() {
        f0[i - k]
    } else if i < k + f0.len() + 2 {
        ' '
    } else {
        amt[i - k - f0.len() - 2]
    }) by {}
    assert(plain(p)) by {
        assert forall|i: int| 0 <= i < p.len() implies #[trigger] p[i] != ';' && p[i] != '#' by {
            if k <= i < k + f0.len() {
                assert(p[i] == f0[i - k]);
            } else if i >= k + f0.len() + 2 {
                assert(p[i] == amt[i - k - f0.len() - 2]);
            }
        }
    }
    assert(!is_blank(p)) by {
        assert(p[k as int] == f0[0]);
    }
    if free_of(f0, '\n') && free_of(amt, '\n') {
        assert forall|i: int| 0 <= i < p.len() implies #[trigger] p[i] != '\n' by {
            if k <= i < k + f0.len() {
                assert(p[i] == f0[i - k]);
            } else if i >= k + f0.len() + 2 {
                assert(p[i] == amt[i - k - f0.len() - 2]);
            }
        }
    }
    let e = trim_end(p);
    lemma_tokens_of_posting(k, f0, amt);
    lemma_trim_end_props(p);
    assert(e.len() >= k + f0.len()) by {
        if e.len() < k + f0.len() {
            assert(p[k + f0.len() - 1] == f0.last());
            assert(is_ws(p[k + f0.len() - 1]));
        }
    }
    assert(e[0] == p[0]);
    assert(p[0] == ' ');
    if amt.len() > 0 {
        assert(p.last() == amt.last());
        lemma_trim_end_fixed(p);
    } else {
        assert(e.len() == k + f0.len()) by {
            if e.len() > k + f0.len() {
                assert(e.last() == p[e.len() - 1]);
            }
        }
        assert(e =~= spaces(k) + f0);
        assert forall|i: int| 0 <= i < k implies is_ws(#[trigger] e[i]) by {}
        assert(e[k as int] == f0.first());
        assert(e[e.len() - 1] == f0.last());
        lemma_trim_is(e, k as int, e.len() as int);
        assert(e.subrange(k as int, e.len() as int) =~= f0);
    }
    k
}

/// A text that is spaces, then a field, then two spaces and an amount,
/// and anything that is written from it, is no word that opens or closes
/// a comment block, unless the field alone is such a word.
pub proof fn lemma_posting_no_word(
    r: Seq<char>,
    p: Seq<char>,
    k: nat,
    f0: Seq<char>,
    amt: Seq<char>,
    commented: bool,
)
    requires
        p == spaces(k) + f0 + seq![' ', ' '] + amt,
        commented ==> exists|i: int| 0 <= i < r.len() && is_delimiter(#[trigger] r[i]),
        !commented ==> r == trim_end(p),
        amt.len() > 0 ==> trim_end(p) == p && exists|j: int|
            0 <= j < amt.len() && is_digit(#[trigger] amt[j]),
        amt.len() == 0 ==> trim(trim_end(p)) == f0,
    ensures
        commented || amt.len() > 0 ==> !opens_block(r) && !closes_block(r),
        !commented && amt.len() == 0 ==> trim(r) == f0,
{
    if commented {
        let i = choose|i: int| 0 <= i < r.len() && is_delimiter(#[trigger] r[i]);
        lemma_foreign_char(r, i);
    } else if amt.len() > 0 {
        let j = choose|j: int| 0 <= j < amt.len() && is_digit(#[trigger] amt[j]);
        assert(p[k + f0.len() + 2 + j] == amt[j]);
        lemma_foreign_char(r, k + f0.len() + 2 + j);
    }
}

/// What a posting that was written reads back as: a posting of the same
/// account and the same amount.
pub proof fn lemma_posting_reread(
    ts: Seq<Seq<char>>,
    amt: Seq<char>,
    p: Seq<char>,
    comment: Option<CommentView>,
    r: Seq<char>,
)
    requires
        ts.len() > 0,
        amount_text(ts) == Ok::<Seq<char>, ErrorView>(amt),
        ts.len() < 2 ==> amt.len() == 0,
        ts.len() >= 2 ==> amt.len() > 0 && amount_text(seq![ts[0], amt]) == amount_text(ts),
        kind_of(trim_end(p)) == KindView::Posting(
            if amt.len() == 0 {
                seq![ts[0]]
            } else {
                seq![ts[0], amt]
            },
        ),
        split_comment(false, KindView::Undetermined, r) == (LineView {
            kind: KindView::Undetermined,
            content: Some(trim_end(p)),
            comment,
        }),
    ensures
        same_layout(
            LineView { kind: KindView::Posting(ts), content: Some(p), comment },
            classify_text(false, r),
        ),
{
    let l2 = classify_text(false, r);
    assert(l2.kind == kind_of(trim_end(p)));
    let fs = l2.kind->Posting_0;
    if ts.len() >= 2 {
        assert(fs == seq![ts[0], amt]);
        assert(fs[0] == ts[0]);
    } else {
        assert(fs == seq![ts[0]]);
        assert(fs[0] == ts[0]);
        assert(amount_text(fs) == amount_text(ts));
    }
}

/// A posting is stable.
pub proof fn lemma_posting_line_stable(raw: Seq<char>, w: WidthsView)
    requires
        !is_comment_line(raw),
        !opens_block(raw),
        !closes_block(raw),
        classify_text(false, raw).kind is Posting,
        render_line(classify_text(false, raw), w) is Ok,
    ensures
        line_stable(false, raw, w),
{
    let l = classify_text(false, raw);
    let ts = l.kind->Posting_0;
    let amt = amount_text(ts)->Ok_0;
    let f0 = ts[0];
    let p = posting_text(ts, amt, w.account);
    let r = render_line(l, w)->Ok_0;
    assert(content_text(l, w.account) == Ok::<Seq<char>, ErrorView>(p));
    lemma_split_props(raw);
    lemma_posting_fields(raw);
    let k = lemma_laid_out_posting(f0, amt, w.account);
    lemma_reread(p, l, w.line);
    // read back, it is a posting of the same account and amount
    lemma_posting_reread(ts, amt, p, l.comment, r);
    assert(same_layout(l, classify_text(false, r))) by {
        let written = LineView { kind: KindView::Posting(ts), content: Some(p), comment: l.comment };
        assert(same_layout(written, classify_text(false, r)));
    }
    // it neither opens nor closes a comment block
    lemma_posting_no_word(r, p, k, f0, amt, l.comment is Some);
    assert(!opens_block(r) && !closes_block(r));
    // and it is not empty
    lemma_trim_end_props(p);
    assert(r.len() > 0) by {
        if trim_end(p).len() == 0 {
            assert(is_blank(p));
        }
    }
}

/// Every line is stable: the line that is written for a line of a journal
/// reads back, in the same state of the comment block, as a record that is
/// laid out as the record of that line is.
pub proof fn lemma_line_stable(forced: bool, raw: Seq<char>, w: WidthsView)
    requires
        opens_block(raw) ==> forced,
        !forced ==> !closes_block(raw),
        render_line(classify_text(forced, raw), w) is Ok,
    ensures
        line_stable(forced, raw, w),
{
    if forced || is_comment_line(raw) {
        lemma_comment_line_stable(forced, raw, w);
    } else if classify_text(false, raw).kind is Posting {
        lemma_posting_line_stable(raw, w);
    } else {
        lemma_plain_line_stable(raw, w);
    }
}

} // verus!
