//! The layout engine: one pass over the records of a journal measures the
//! columns, a second one writes every line out in canonical form.

use vstd::prelude::*;
use crate::text::{
    is_ws,
    trim_end,
    to_chars,
    from_chars,
    push_str,
    push_range,
    trim_end_bound,
    lemma_trim_end_props,
};
use crate::types::{
    Line,
    LineKind,
    FormatError,
    KindView,
    LineView,
    ErrorView,
    comment_text,
    line_views,
    push_comment,
};
use crate::amount::{parse_amount_spec, render_amount_spec, parse_amount, push_amount};
use crate::classify::{
    classify_spec,
    account_field,
    indent_width,
    spaces,
    push_account,
    push_spaces,
};

verus! {

/// The two widths that the measure pass finds, in characters. They are
/// sums of lengths of texts and of small constants, so they are held in a
/// type that no such sum overflows.
#[derive(Debug, Clone, Copy, PartialEq, Eq)]
pub struct Widths {
    /// The width of the widest account field, indent included.
    pub account: u128,
    /// The width that every line is padded to before its comment.
    pub line: u128,
}

/// The two widths as the contracts speak of them.
pub struct WidthsView {
    pub account: nat,
    pub line: nat,
}

impl View for Widths {
    type V = WidthsView;

    open spec fn view(&self) -> WidthsView {
        WidthsView { account: self.account as nat, line: self.line as nat }
    }
}

/// The greater of two numbers.
pub open spec fn max_nat(a: nat, b: nat) -> nat {
    if a >= b {
        a
    } else {
        b
    }
}

/// The amount of a posting as it is written out: the canonical form of its
/// second field, and nothing if it has none. A second field that is no
/// amount is an error.
pub open spec fn amount_text(fields: Seq<Seq<char>>) -> Result<Seq<char>, ErrorView> {
    if fields.len() < 2 {
        Ok(Seq::empty())
    } else {
        match parse_amount_spec(fields[1]) {
            Some(a) => Ok(render_amount_spec(a)),
            None => Err(ErrorView::AmountParseError(fields[1])),
        }
    }
}

/// The width that an account takes in the layout: its length and its
/// indent.
pub open spec fn account_width(account: Seq<char>) -> nat {
    account.len() + indent_width(account)
}

/// What one line adds to the widths found so far.
///
/// A posting widens the account column to its own account, and the line to
/// the account column as it is then, two spaces and its amount. A comment
/// line counts for nothing. Any other line widens the line to its content.
pub open spec fn measure_line(l: LineView, w: WidthsView) -> Result<WidthsView, ErrorView> {
    match l.kind {
        KindView::Posting(fields) => match amount_text(fields) {
            Err(e) => Err(e),
            Ok(amount) => {
                let account = max_nat(w.account, account_width(fields[0]));
                Ok(WidthsView { account, line: max_nat(w.line, account + amount.len() + 2) })
            },
        },
        KindView::Comment => Ok(w),
        _ => Ok(WidthsView { account: w.account, line: max_nat(w.line, l.content.unwrap().len()) }),
    }
}

/// The widths of a journal: what its lines add up to, in order, from zero.
/// The first amount that cannot be read is an error.
pub open spec fn measure_spec(ls: Seq<LineView>) -> Result<WidthsView, ErrorView>
    decreases ls.len(),
{
    if ls.len() == 0 {
        Ok(WidthsView { account: 0, line: 0 })
    } else {
        match measure_spec(ls.drop_last()) {
            Err(e) => Err(e),
            Ok(w) => measure_line(ls.last(), w),
        }
    }
}

/// `s` with spaces before it, up to `width`.
pub open spec fn left_pad(s: Seq<char>, width: nat) -> Seq<char> {
    if s.len() >= width {
        s
    } else {
        spaces((width - s.len()) as nat) + s
    }
}

/// `s` with spaces behind it, up to `width`.
pub open spec fn right_pad(s: Seq<char>, width: nat) -> Seq<char> {
    if s.len() >= width {
        s
    } else {
        s + spaces((width - s.len()) as nat)
    }
}

/// The content of a posting in the layout: the account field, set flush
/// right in the account column, two spaces, the amount.
pub open spec fn posting_text(fields: Seq<Seq<char>>, amount: Seq<char>, account: nat) -> Seq<
    char,
> {
    left_pad(account_field(fields[0]), account) + seq![' ', ' '] + amount
}

/// What follows the content of a line: a space and the comment, if the
/// line has one.
pub open spec fn comment_tail(l: LineView) -> Seq<char> {
    match l.comment {
        Some(c) => seq![' '] + comment_text(c),
        None => Seq::empty(),
    }
}

/// The content of a line that is no comment, as it is laid out: a posting
/// anew, with its account flush right in a column of the width `account`;
/// any other line as it is.
pub open spec fn content_text(l: LineView, account: nat) -> Result<Seq<char>, ErrorView> {
    match l.kind {
        KindView::Posting(fields) => match amount_text(fields) {
            Err(e) => Err(e),
            Ok(amount) => Ok(posting_text(fields, amount, account)),
        },
        _ => Ok(l.content.unwrap()),
    }
}

/// A line as it is written out.
///
/// A comment line is its comment, verbatim. Any other line is its content
/// as it is laid out, padded to the line width, followed by its comment,
/// and trimmed at the end. A line without a kind is an error.
pub open spec fn render_line(l: LineView, w: WidthsView) -> Result<Seq<char>, ErrorView> {
    match l.kind {
        KindView::Comment => Ok(comment_text(l.comment.unwrap())),
        KindView::Undetermined => Err(ErrorView::UndeterminedLineKind),
        _ => match content_text(l, w.account) {
            Err(e) => Err(e),
            Ok(c) => Ok(trim_end(right_pad(c, w.line) + comment_tail(l))),
        },
    }
}

/// The lines of a journal as they are written out, each with a line feed
/// behind it. The first line that cannot be written is an error.
pub open spec fn render_all(ls: Seq<LineView>, w: WidthsView) -> Result<Seq<char>, ErrorView>
    decreases ls.len(),
{
    if ls.len() == 0 {
        Ok(Seq::empty())
    } else {
        match render_all(ls.drop_last(), w) {
            Err(e) => Err(e),
            Ok(body) => match render_line(ls.last(), w) {
                Err(e) => Err(e),
                Ok(text) => Ok(body + text + seq!['\n']),
            },
        }
    }
}

/// What the layout writes for the records of a journal: the widths are
/// measured over all of them first, then every line is written.
pub open spec fn layout_body(ls: Seq<LineView>) -> Result<Seq<char>, ErrorView> {
    match measure_spec(ls) {
        Err(e) => Err(e),
        Ok(w) => render_all(ls, w),
    }
}

/// A buffer as it is left: without trailing whitespace, and with one line
/// feed at its end.
pub open spec fn finish(buffer: Seq<char>) -> Seq<char> {
    trim_end(buffer).push('\n')
}

/// What is written for a journal before the buffer is finished.
pub open spec fn journal_body(input: Seq<char>) -> Result<Seq<char>, ErrorView> {
    match classify_spec(input) {
        Err(e) => Err(e),
        Ok(ls) => layout_body(ls),
    }
}

/// The canonical form of a journal.
pub open spec fn canonical(input: Seq<char>) -> Result<Seq<char>, ErrorView> {
    match journal_body(input) {
        Err(e) => Err(e),
        Ok(body) => Ok(finish(body)),
    }
}

/// Every line has the fields that the layout reads.
pub open spec fn all_wf(ls: Seq<LineView>) -> bool {
    forall|i: int| 0 <= i < ls.len() ==> (#[trigger] ls[i]).wf()
}

/// The widths that lines in memory can add up to.
pub open spec fn widths_bounded(w: WidthsView) -> bool {
    w.account <= usize::MAX + 4 && w.line <= 2 * usize::MAX + 6
}

/// The amount of a posting as it is written out.
fn amount_chars(fields: &Vec<String>) -> (r: Result<Vec<char>, FormatError>)
    ensures
        match amount_text(crate::types::views_of(fields@)) {
            Ok(t) => r is Ok && r.unwrap()@ == t,
            Err(e) => r is Err && r.unwrap_err()@ == e,
        },
{
    let mut out: Vec<char> = Vec::new();
    if fields.len() < 2 {
        return Ok(out);
    }
    match parse_amount(fields[1].as_str()) {
        Ok(a) => {
            push_amount(&mut out, &a);
            assert(out@ =~= render_amount_spec(a@));
            Ok(out)
        },
        Err(e) => Err(e),
    }
}

/// What one line adds to the widths found so far.
fn measure_one(line: &Line, w: Widths) -> (r: Result<Widths, FormatError>)
    requires
        line.wf(),
        widths_bounded(w@),
    ensures
        match measure_line(line@, w@) {
            Ok(v) => r is Ok && r.unwrap()@ == v && widths_bounded(v),
            Err(e) => r is Err && r.unwrap_err()@ == e,
        },
{
    match &line.kind {
        LineKind::Posting(fields) => {
            match amount_chars(fields) {
                Err(e) => Err(e),
                Ok(amount) => {
                    let name = to_chars(fields[0].as_str());
                    let indent: u128 = if crate::classify::has_status_chars(&name) {
                        2
                    } else {
                        4
                    };
                    let own: u128 = name.len() as u128 + indent;
                    let account = if w.account >= own {
                        w.account
                    } else {
                        own
                    };
                    let wide: u128 = account + amount.len() as u128 + 2;
                    let line = if w.line >= wide {
                        w.line
                    } else {
                        wide
                    };
                    Ok(Widths { account, line })
                },
            }
        },
        LineKind::Comment => Ok(w),
        _ => {
            let len: u128 = match &line.content {
                Some(c) => c.as_str().unicode_len() as u128,
                None => 0,
            };
            let line = if w.line >= len {
                w.line
            } else {
                len
            };
            Ok(Widths { account: w.account, line })
        },
    }
}

/// The measure pass: the widths of the account column and of the line.
///
/// Fails with `AmountParseError` at the first posting whose second field
/// is no amount.
pub fn measure(lines: &Vec<Line>) -> (r: Result<Widths, FormatError>)
    requires
        all_wf(line_views(lines@)),
    ensures
        match measure_spec(line_views(lines@)) {
            Ok(w) => r is Ok && r.unwrap()@ == w,
            Err(e) => r is Err && r.unwrap_err()@ == e,
        },
{
    let mut w = Widths { account: 0, line: 0 };
    let mut i: usize = 0;
    let ghost ls = line_views(lines@);
    assert(ls.take(0) =~= Seq::<LineView>::empty());
    while i < lines.len()
        invariant
            i <= lines.len(),
            ls == line_views(lines@),
            all_wf(ls),
            measure_spec(ls.take(i as int)) == Ok::<WidthsView, ErrorView>(w@),
            widths_bounded(w@),
        decreases lines.len() - i,
    {
        proof {
            assert(ls.take(i + 1).drop_last() =~= ls.take(i as int));
            assert(ls.take(i + 1).last() == lines@[i as int]@);
            assert(ls[i as int].wf());
        }
        match measure_one(&lines[i], w) {
            Err(e) => {
                proof {
                    lemma_measure_error(ls, i + 1);
                }
                return Err(e);
            },
            Ok(v) => {
                w = v;
            },
        }
        i += 1;
    }
    assert(ls.take(lines.len() as int) =~= ls);
    Ok(w)
}

/// An error that the measure pass meets in a prefix is the error of the
/// whole.
pub proof fn lemma_measure_error(ls: Seq<LineView>, k: int)
    requires
        0 <= k <= ls.len(),
        measure_spec(ls.take(k)) is Err,
    ensures
        measure_spec(ls) == measure_spec(ls.take(k)),
    decreases ls.len() - k,
{
    if k == ls.len() {
        assert(ls.take(k) =~= ls);
    } else {
        assert(ls.take(k + 1).drop_last() =~= ls.take(k));
        lemma_measure_error(ls, k + 1);
    }
}

/// An error that the render pass meets in a prefix is the error of the
/// whole.
pub proof fn lemma_render_error(ls: Seq<LineView>, w: WidthsView, k: int)
    requires
        0 <= k <= ls.len(),
        render_all(ls.take(k), w) is Err,
    ensures
        render_all(ls, w) == render_all(ls.take(k), w),
    decreases ls.len() - k,
{
    if k == ls.len() {
        assert(ls.take(k) =~= ls);
    } else {
        assert(ls.take(k + 1).drop_last() =~= ls.take(k));
        lemma_render_error(ls, w, k + 1);
    }
}

/// Appends spaces to `out` until it is `width` characters long.
fn pad_to(out: &mut Vec<char>, width: u128)
    ensures
        final(out)@ == right_pad(old(out)@, width as nat),
{
    let len = out.len() as u128;
    if len < width {
        push_spaces(out, width - len);
    }
}

/// The content of a line that is no comment, as it is laid out.
fn content_chars(line: &Line, account: u128) -> (r: Result<Vec<char>, FormatError>)
    requires
        line.wf(),
        !(line.kind is Comment),
    ensures
        match content_text(line@, account as nat) {
            Ok(t) => r is Ok && r.unwrap()@ == t,
            Err(e) => r is Err && r.unwrap_err()@ == e,
        },
{
    let mut out: Vec<char> = Vec::new();
    match &line.kind {
        LineKind::Posting(fields) => {
            match amount_chars(fields) {
                Err(e) => {
                    return Err(e);
                },
                Ok(amount) => {
                    let name = to_chars(fields[0].as_str());
                    let mut field: Vec<char> = Vec::new();
                    push_account(&mut field, &name);
                    assert(field@ =~= account_field(name@));
                    let len = field.len() as u128;
                    if len < account {
                        push_spaces(&mut out, account - len);
                    }
                    push_range(&mut out, &field, 0, field.len());
                    out.push(' ');
                    out.push(' ');
                    push_range(&mut out, &amount, 0, amount.len());
                    proof {
                        assert(field@.subrange(0, field@.len() as int) =~= field@);
                        assert(amount@.subrange(0, amount@.len() as int) =~= amount@);
                        assert(out@ =~= posting_text(
                            crate::types::views_of(fields@),
                            amount@,
                            account as nat,
                        ));
                    }
                },
            }
        },
        _ => {
            match &line.content {
                Some(c) => {
                    push_str(&mut out, c.as_str());
                    assert(out@ =~= c@);
                },
                None => {},
            }
        },
    }
    Ok(out)
}

/// One line as it is written out.
pub(crate) fn render_chars(line: &Line, w: Widths) -> (r: Result<Vec<char>, FormatError>)
    requires
        line.wf(),
    ensures
        match render_line(line@, w@) {
            Ok(t) => r is Ok && r.unwrap()@ == t,
            Err(e) => r is Err && r.unwrap_err()@ == e,
        },
{
    match &line.kind {
        LineKind::Comment => {
            let mut out: Vec<char> = Vec::new();
            match &line.comment {
                Some(c) => {
                    push_comment(&mut out, c);
                    assert(out@ =~= comment_text(c@));
                },
                None => {},
            }
            return Ok(out);
        },
        LineKind::Undetermined => {
            return Err(FormatError::UndeterminedLineKind);
        },
        _ => {},
    }
    let mut out = match content_chars(line, w.account) {
        Ok(out) => out,
        Err(e) => {
            return Err(e);
        },
    };
    let ghost content = out@;
    pad_to(&mut out, w.line);
    match &line.comment {
        Some(c) => {
            out.push(' ');
            push_comment(&mut out, c);
            assert(out@ =~= right_pad(content, w@.line) + (seq![' '] + comment_text(c@)));
        },
        None => {
            assert(out@ =~= right_pad(content, w@.line) + Seq::<char>::empty());
        },
    }
    let k = trim_end_bound(&out, 0, out.len());
    proof {
        assert(out@.subrange(0, out@.len() as int) =~= out@);
    }
    out.truncate(k);
    Ok(out)
}

/// The layout of the records of a journal, appended to `buffer`; the
/// buffer is then trimmed at its end and closed with one line feed.
///
/// Fails with `AmountParseError` at the first posting whose second field
/// is no amount, else with `UndeterminedLineKind` if a line has no kind.
/// On failure the buffer is left as it was.
pub fn layout(buffer: &mut String, lines: &Vec<Line>) -> (r: Result<(), FormatError>)
    requires
        all_wf(line_views(lines@)),
    ensures
        match layout_body(line_views(lines@)) {
            Ok(body) => r is Ok && final(buffer)@ == finish(old(buffer)@ + body),
            Err(e) => r is Err && r.unwrap_err()@ == e && final(buffer)@ == old(buffer)@,
        },
{
    let w = match measure(lines) {
        Ok(w) => w,
        Err(e) => {
            return Err(e);
        },
    };
    let ghost ls = line_views(lines@);
    let mut out = to_chars(buffer.as_str());
    let mut i: usize = 0;
    proof {
        assert(ls.take(0) =~= Seq::<LineView>::empty());
        assert(out@ =~= old(buffer)@ + Seq::<char>::empty());
    }
    while i < lines.len()
        invariant
            i <= lines.len(),
            ls == line_views(lines@),
            all_wf(ls),
            buffer@ == old(buffer)@,
            measure_spec(ls) == Ok::<WidthsView, ErrorView>(w@),
            render_all(ls.take(i as int), w@) is Ok,
            out@ == old(buffer)@ + render_all(ls.take(i as int), w@)->Ok_0,
        decreases lines.len() - i,
    {
        proof {
            assert(ls.take(i + 1).drop_last() =~= ls.take(i as int));
            assert(ls.take(i + 1).last() == lines@[i as int]@);
            assert(ls[i as int].wf());
        }
        match render_chars(&lines[i], w) {
            Err(e) => {
                proof {
                    lemma_render_error(ls, w@, i + 1);
                }
                return Err(e);
            },
            Ok(text) => {
                push_range(&mut out, &text, 0, text.len());
                out.push('\n');
                proof {
                    assert(text@.subrange(0, text@.len() as int) =~= text@);
                    let body = render_all(ls.take(i as int), w@)->Ok_0;
                    assert(out@ =~= old(buffer)@ + (body + text@ + seq!['\n']));
                }
            },
        }
        i += 1;
    }
    assert(ls.take(lines.len() as int) =~= ls);
    let k = trim_end_bound(&out, 0, out.len());
    proof {
        assert(out@.subrange(0, out@.len() as int) =~= out@);
    }
    out.truncate(k);
    out.push('\n');
    *buffer = from_chars(&out);
    Ok(())
}

// ---------------------------------------------------------------------
// Alignment
// ---------------------------------------------------------------------
/// The widths only grow from line to line.
pub proof fn lemma_measure_grows(ls: Seq<LineView>, k: int)
    requires
        0 <= k <= ls.len(),
        measure_spec(ls) is Ok,
    ensures
        measure_spec(ls.take(k)) is Ok,
        measure_spec(ls.take(k))->Ok_0.account <= measure_spec(ls)->Ok_0.account,
        measure_spec(ls.take(k))->Ok_0.line <= measure_spec(ls)->Ok_0.line,
    decreases ls.len() - k,
{
    if k == ls.len() {
        assert(ls.take(k) =~= ls);
    } else {
        assert(ls.take(k + 1).drop_last() =~= ls.take(k));
        if measure_spec(ls.take(k)) is Err {
            lemma_measure_error(ls, k);
        }
        if measure_spec(ls.take(k + 1)) is Err {
            lemma_measure_error(ls, k + 1);
        }
        lemma_measure_grows(ls, k + 1);
    }
}

/// The account column is as wide as the widest account: no posting of the
/// journal has an account that is wider.
pub proof fn lemma_account_column_covers(ls: Seq<LineView>, i: int)
    requires
        0 <= i < ls.len(),
        measure_spec(ls) is Ok,
        ls[i].kind is Posting,
    ensures
        account_width(ls[i].kind->Posting_0[0]) <= measure_spec(ls)->Ok_0.account,
{
    lemma_measure_grows(ls, i + 1);
    lemma_measure_grows(ls, i);
    assert(ls.take(i + 1).drop_last() =~= ls.take(i));
    assert(ls.take(i + 1).last() == ls[i]);
}

/// An account field is no wider than the width that is counted for it.
pub proof fn lemma_account_field_len(account: Seq<char>)
    ensures
        account_field(account).len() <= account_width(account),
{
    let _ = crate::text::lemma_trim_bounds(account);
}

/// In a posting as it is laid out in an account column that is wide enough
/// for it, the amount begins two columns behind the account column.
pub proof fn lemma_posting_columns(fields: Seq<Seq<char>>, amount: Seq<char>, account: nat)
    requires
        fields.len() > 0,
        account_width(fields[0]) <= account,
    ensures
        posting_text(fields, amount, account).len() == account + 2 + amount.len(),
        posting_text(fields, amount, account).subrange(
            account as int,
            account as int + 2 + amount.len(),
        ) == seq![' ', ' '] + amount,
        posting_text(fields, amount, account).take(account as int) == left_pad(
            account_field(fields[0]),
            account,
        ),
{
    lemma_account_field_len(fields[0]);
    let field = left_pad(account_field(fields[0]), account);
    assert(field.len() == account);
    let text = posting_text(fields, amount, account);
    assert(text.subrange(account as int, account as int + 2 + amount.len()) =~= seq![' ', ' '] + amount);
    assert(text.take(account as int) =~= field);
}

/// The line that is written for content begins with that content, but for
/// whitespace at its end.
pub proof fn lemma_written_content(c: Seq<char>, tail: Seq<char>, width: nat)
    ensures
        trim_end(right_pad(c, width) + tail).len() >= trim_end(c).len(),
        forall|j: int|
            0 <= j < trim_end(c).len() ==> #[trigger] trim_end(right_pad(c, width) + tail)[j]
                == c[j],
{
    let x = right_pad(c, width) + tail;
    let r = trim_end(x);
    let e = trim_end(c);
    lemma_trim_end_props(c);
    lemma_trim_end_props(x);
    if e.len() > 0 {
        let k = e.len() as int;
        assert(e.last() == c[k - 1]);
        assert(x[k - 1] == c[k - 1]);
        assert(r.len() >= k) by {
            if r.len() < k {
                assert(is_ws(x[k - 1]));
            }
        }
        assert forall|j: int| 0 <= j < k implies #[trigger] r[j] == c[j] by {
            assert(r[j] == x[j]);
        }
    }
}

/// Alignment of the amounts: in the layout of a journal the amount of every
/// posting begins at the same column, two behind the account column that
/// the measure pass found. The content of a posting is its account field,
/// set flush right in the account column, two spaces and its amount; and
/// the line that is written for it begins with that content.
pub proof fn lemma_amounts_aligned(ls: Seq<LineView>, i: int)
    requires
        all_wf(ls),
        0 <= i < ls.len(),
        measure_spec(ls) is Ok,
        ls[i].kind is Posting,
    ensures
        ({
            let w = measure_spec(ls)->Ok_0;
            let fields = ls[i].kind->Posting_0;
            let amount = amount_text(fields)->Ok_0;
            let content = content_text(ls[i], w.account)->Ok_0;
            let text = render_line(ls[i], w)->Ok_0;
            &&& amount_text(fields) is Ok
            &&& content_text(ls[i], w.account) is Ok
            &&& render_line(ls[i], w) is Ok
            &&& content.len() == w.account + 2 + amount.len()
            &&& content.take(w.account as int) == left_pad(account_field(fields[0]), w.account)
            &&& content.subrange(w.account as int, w.account as int + 2) == seq![' ', ' ']
            &&& content.skip(w.account as int + 2) == amount
            &&& text.len() >= trim_end(content).len()
            &&& forall|j: int| 0 <= j < trim_end(content).len() ==> #[trigger] text[j] == content[j]
        }),
{
    let w = measure_spec(ls)->Ok_0;
    let fields = ls[i].kind->Posting_0;
    assert(ls[i].wf());
    lemma_account_column_covers(ls, i);
    lemma_measure_grows(ls, i + 1);
    lemma_measure_grows(ls, i);
    assert(ls.take(i + 1).drop_last() =~= ls.take(i));
    assert(ls.take(i + 1).last() == ls[i]);
    let amount = amount_text(fields)->Ok_0;
    lemma_posting_columns(fields, amount, w.account);
    let content = posting_text(fields, amount, w.account);
    assert(content.skip(w.account as int + 2) =~= amount);
    assert(content.subrange(w.account as int, w.account as int + 2) =~= seq![' ', ' ']);
    lemma_written_content(content, comment_tail(ls[i]), w.line);
}

/// The column of a trailing comment: where the content of a line, as it
/// is laid out, is no wider than the line width, the line as it is written
/// out holds the content, padded to the line width, then a space, then the
/// comment with its marker. So the comments of all such lines begin at the
/// same column.
pub proof fn lemma_comment_column(l: LineView, w: WidthsView)
    requires
        l.wf(),
        !(l.kind is Comment),
        l.comment is Some,
        !(l.comment->Some_0.delimiter is Bare),
        render_line(l, w) is Ok,
        content_text(l, w.account)->Ok_0.len() <= w.line,
    ensures
        ({
            let c = content_text(l, w.account)->Ok_0;
            let text = render_line(l, w)->Ok_0;
            &&& text.len() >= w.line + 2
            &&& text.take(w.line as int) == right_pad(c, w.line)
            &&& text[w.line as int] == ' '
            &&& text.skip(w.line as int + 1) == trim_end(comment_text(l.comment->Some_0))
            &&& text[w.line as int + 1] == crate::types::delimiter_text(l.comment->Some_0.delimiter)[0]
        }),
{
    let c = content_text(l, w.account)->Ok_0;
    let cm = l.comment->Some_0;
    let head = right_pad(c, w.line) + seq![' '];
    let tail = comment_text(cm);
    assert(head.len() == w.line + 1);
    assert(right_pad(c, w.line) + comment_tail(l) =~= head + tail);
    let marker = crate::types::delimiter_text(cm.delimiter)[0];
    assert(tail[0] == marker);
    assert(!is_ws(marker));
    // the marker is never trimmed away
    lemma_trim_end_props(tail);
    assert(trim_end(tail).len() > 0) by {
        if trim_end(tail).len() == 0 {
            assert(is_ws(tail[0]));
        }
    }
    crate::text::lemma_trim_end_append(head, tail);
    let text = render_line(l, w)->Ok_0;
    assert(text == head + trim_end(tail));
    assert(text.take(w.line as int) =~= right_pad(c, w.line));
    assert(text.skip(w.line as int + 1) =~= trim_end(tail));
    assert(trim_end(tail)[0] == tail[0]);
}

} // verus!
